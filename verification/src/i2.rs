//! Ternary weights, four to a byte.
//!
//! A weight is kept as a code 0, 1 or 2, which stands for -1, 0 or +1. Sixteen bytes hold a block
//! of 64 weights: weight `j` of a block lies in byte `j % 16`, in the two-bit field `j / 16`
//! counted from the top.

use crate::float::{absolute, below_threshold, is_nan, is_tiny, less, magnitude, not_a_number, value, ZERO};
use crate::requantize::is_quantized;
use vstd::prelude::*;
use vstd::slice::slice_subrange;

verus! {

/// Weights per block.
pub const QK_I2_S: usize = 64;

/// Weights per group; a block has four groups, one for each field of its bytes.
pub const GROUP_SIZE: usize = 16;

/// Field `g` of a byte, counted from the top.
pub open spec fn field(byte: u8, g: int) -> u8 {
    if g == 0 {
        byte / 64
    } else if g == 1 {
        byte / 16 % 4
    } else if g == 2 {
        byte / 4 % 4
    } else {
        byte % 4
    }
}

/// The byte that holds weight `idx`.
pub open spec fn byte_index(idx: int) -> int {
    idx / 64 * 16 + idx % 16
}

/// The code of weight `idx`.
pub open spec fn code_at(packed: Seq<u8>, idx: int) -> u8 {
    field(packed[byte_index(idx)], idx % 64 / 16)
}

/// The code of weight `idx` where 32 bytes hold 128 weights, as GGUF files store them.
pub open spec fn wide_code_at(src: Seq<u8>, idx: int) -> u8 {
    field(src[idx / 128 * 32 + idx % 32], idx % 128 / 32)
}

pub fn field_of(byte: u8, g: usize) -> (c: u8)
    requires
        g < 4,
    ensures
        c == field(byte, g as int),
        c < 4,
{
    proof {
        assert(byte >> 6 == byte / 64) by (bit_vector);
        assert((byte >> 4) & 3 == byte / 16 % 4) by (bit_vector);
        assert((byte >> 2) & 3 == byte / 4 % 4) by (bit_vector);
        assert(byte & 3 == byte % 4) by (bit_vector);
    }
    if g == 0 {
        byte >> 6
    } else if g == 1 {
        (byte >> 4) & 3
    } else if g == 2 {
        (byte >> 2) & 3
    } else {
        byte & 3
    }
}

/// A row-major matrix of ternary weights with one scale per block.
pub struct I2Tensor {
    /// The codes, 64 to sixteen bytes.
    pub packed: Vec<u8>,
    /// The pattern of the scale of each block.
    pub scales: Vec<u32>,
    /// The number of weights.
    pub n: usize,
}

impl I2Tensor {
    /// Whole blocks only, and a scale for each.
    pub open spec fn wf(&self) -> bool {
        &&& self.n % 64 == 0
        &&& self.packed@.len() * 4 == self.n
        &&& self.scales@.len() * 64 == self.n
    }

    /// There are a byte and a scale for weight `idx`.
    pub open spec fn has_weight(&self, idx: int) -> bool {
        byte_index(idx) < self.packed@.len() && idx / 64 < self.scales@.len()
    }

    /// There are a byte and a scale for every weight. Whole blocks with a scale for each have them.
    pub open spec fn holds_weights(&self) -> bool {
        forall|idx: int| 0 <= idx < self.n ==> #[trigger] self.has_weight(idx)
    }

    /// The ternary weight `idx`, -1, 0 or +1 where the code is one of those that the quantiser
    /// writes.
    pub open spec fn weight(&self, idx: int) -> int {
        code_at(self.packed@, idx) - 1
    }

    /// A tensor from its blocks.
    pub fn from_blocks(packed: Vec<u8>, scales: Vec<u32>) -> (t: I2Tensor)
        requires
            packed@.len() * 4 <= usize::MAX,
        ensures
            t.packed == packed,
            t.scales == scales,
            t.n == packed@.len() * 4,
    {
        let n: usize = packed.len() * 4;
        I2Tensor { packed, scales, n }
    }

    /// The scale of the block that holds weight `idx`.
    pub fn scale_of(&self, idx: usize) -> (scale: u32)
        requires
            idx / 64 < self.scales@.len(),
        ensures
            scale == self.scales@[idx as int / 64],
    {
        self.scales[idx / QK_I2_S]
    }

    /// The ternary weight `idx`.
    pub fn get_code(&self, idx: usize) -> (w: i8)
        requires
            idx < self.n,
            byte_index(idx as int) < self.packed@.len(),
        ensures
            w == self.weight(idx as int),
            -1 <= w <= 2,
    {
        let b: usize = idx / QK_I2_S;
        let j: usize = idx % QK_I2_S;
        let g: usize = j / GROUP_SIZE;
        let p: usize = j % GROUP_SIZE;
        let q: u8 = field_of(self.packed[b * (QK_I2_S / 4) + p], g);
        q as i8 - 1
    }
}

/// Packs codes, 64 to sixteen bytes.
pub fn pack_codes(codes: &[u8]) -> (packed: Vec<u8>)
    requires
        codes@.len() % 64 == 0,
        forall|i: int| 0 <= i < codes@.len() ==> codes@[i] < 4,
    ensures
        packed@.len() * 4 == codes@.len(),
        forall|i: int| 0 <= i < codes@.len() ==> #[trigger] code_at(packed@, i) == codes@[i],
{
    let n: usize = codes.len();
    let n_bytes: usize = n / 4;
    let mut packed: Vec<u8> = Vec::new();
    let mut k: usize = 0;
    while k < n_bytes
        invariant
            n == codes@.len(),
            n % 64 == 0,
            n_bytes == n / 4,
            k <= n_bytes,
            packed@.len() == k,
            forall|i: int| 0 <= i < n ==> codes@[i] < 4,
            forall|m: int, g: int|
                0 <= m < k && 0 <= g < 4 ==> #[trigger] field(packed@[m], g) == codes@[m / 16 * 64
                    + g * 16 + m % 16],
        decreases n_bytes - k,
    {
        let first: usize = k / 16 * 64 + k % 16;
        assert(first + 48 < n);
        let c0: u8 = codes[first];
        let c1: u8 = codes[first + 16];
        let c2: u8 = codes[first + 32];
        let c3: u8 = codes[first + 48];
        let byte: u8 = c0 * 64 + c1 * 16 + c2 * 4 + c3;
        assert(field(byte, 0) == c0 && field(byte, 1) == c1 && field(byte, 2) == c2 && field(
            byte,
            3,
        ) == c3);
        packed.push(byte);
        k += 1;
    }
    assert forall|i: int| 0 <= i < codes@.len() implies #[trigger] code_at(packed@, i)
        == codes@[i] by {
        let m = byte_index(i);
        let g = i % 64 / 16;
        assert(0 <= m < n_bytes);
        assert(m / 16 == i / 64 && m % 16 == i % 16);
        assert(m / 16 * 64 + g * 16 + m % 16 == i);
        assert(field(packed@[m], g) == codes@[i]);
    }
    packed
}

/// The codes of `n` weights that are stored 128 to 32 bytes.
pub fn unpack_wide(src: &[u8], n: usize) -> (codes: Vec<u8>)
    requires
        n % 128 == 0,
        src@.len() * 4 >= n,
    ensures
        codes@.len() == n,
        forall|i: int| 0 <= i < n ==> #[trigger] codes@[i] == wide_code_at(src@, i) && codes@[i] < 4,
{
    let mut codes: Vec<u8> = Vec::new();
    let mut idx: usize = 0;
    while idx < n
        invariant
            n % 128 == 0,
            src@.len() * 4 >= n,
            idx <= n,
            codes@.len() == idx,
            forall|i: int|
                0 <= i < idx ==> #[trigger] codes@[i] == wide_code_at(src@, i) && codes@[i] < 4,
        decreases n - idx,
    {
        let at: usize = idx / 128 * 32 + idx % 32;
        assert(at < src@.len()) by {
            assert(idx / 128 < n / 128);
        }
        codes.push(field_of(src[at], idx % 128 / 32));
        idx += 1;
    }
    codes
}

/// The code that a number is rounded to: 1 for what is closer to zero than 10^-6, 2 for what is
/// positive, 0 for the rest, which includes what is not a number.
pub open spec fn ternary(bits: u32) -> u8 {
    if is_tiny(bits) {
        1
    } else if !is_nan(bits) && value(bits) > 0 {
        2
    } else {
        0
    }
}

/// `m` is the greatest magnitude of the numbers in `src`, 0 where there is none.
pub open spec fn is_peak(src: Seq<u32>, m: u32) -> bool {
    &&& forall|i: int|
        0 <= i < src.len() && !is_nan(#[trigger] src[i]) ==> magnitude(src[i]) <= m
    &&& m == 0 || exists|i: int|
        0 <= i < src.len() && !is_nan(#[trigger] src[i]) && magnitude(src[i]) == m
}

/// The greatest magnitude of the numbers in `src`.
pub fn peak(src: &[u32]) -> (m: u32)
    ensures
        is_peak(src@, m),
        m <= 0x7f80_0000,
{
    let mut m: u32 = 0;
    let mut i: usize = 0;
    while i < src.len()
        invariant
            i <= src@.len(),
            m <= 0x7f80_0000,
            is_peak(src@.take(i as int), m),
        decreases src@.len() - i,
    {
        let ghost before = src@.take(i as int);
        let ghost after = src@.take(i + 1);
        let a: u32 = absolute(src[i]);
        let ghost old_m = m;
        if !not_a_number(src[i]) && a > m {
            m = a;
        }
        proof {
            assert(after[i as int] == src@[i as int]);
            assert forall|j: int| 0 <= j < after.len() && !is_nan(#[trigger] after[j]) implies magnitude(
                after[j],
            ) <= m by {
                if j < i {
                    assert(before[j] == after[j]);
                }
            }
            if m == old_m && m != 0 {
                let w = choose|j: int|
                    0 <= j < before.len() && !is_nan(#[trigger] before[j]) && magnitude(before[j])
                        == m;
                assert(after[w] == before[w]);
            }
        }
        i += 1;
    }
    assert(src@.take(i as int) =~= src@);
    m
}

/// Rounds weights to ternary codes. The one scale, that of every block, is the greatest magnitude.
pub fn quantize_i2_s(src: &[u32]) -> (t: I2Tensor)
    requires
        src@.len() % 64 == 0,
    ensures
        t.wf(),
        t.n == src@.len(),
        forall|i: int| 0 <= i < t.n ==> #[trigger] code_at(t.packed@, i) == ternary(src@[i]),
        forall|b: int| 0 <= b < t.scales@.len() ==> is_peak(src@, #[trigger] t.scales@[b]),
        is_quantized(src@, t),
        forall|b: int, i: int|
            0 <= b < t.scales@.len() && 0 <= i < src@.len() && !is_nan(#[trigger] src@[i])
                ==> magnitude(src@[i]) <= #[trigger] t.scales@[b],
        forall|b: int, c: int|
            0 <= b < t.scales@.len() && 0 <= c < t.scales@.len() ==> #[trigger] t.scales@[b]
                == #[trigger] t.scales@[c],
{
    let n: usize = src.len();
    let scale: u32 = peak(src);
    let mut codes: Vec<u8> = Vec::new();
    let mut i: usize = 0;
    while i < n
        invariant
            n == src@.len(),
            i <= n,
            codes@.len() == i,
            forall|j: int| 0 <= j < i ==> #[trigger] codes@[j] == ternary(src@[j]),
        decreases n - i,
    {
        let x: u32 = src[i];
        let c: u8 = if below_threshold(x) {
            1
        } else if less(ZERO, x) {
            2
        } else {
            0
        };
        assert(value(ZERO) == 0);
        codes.push(c);
        i += 1;
    }
    let packed: Vec<u8> = pack_codes(codes.as_slice());
    let n_blocks: usize = n / QK_I2_S;
    let mut scales: Vec<u32> = Vec::new();
    let mut b: usize = 0;
    while b < n_blocks
        invariant
            b <= n_blocks,
            scales@.len() == b,
            forall|j: int| 0 <= j < b ==> #[trigger] scales@[j] == scale,
        decreases n_blocks - b,
    {
        scales.push(scale);
        b += 1;
    }
    assert forall|i: int| 0 <= i < n implies #[trigger] code_at(packed@, i) == ternary(src@[i]) by {
        assert(codes@[i] == ternary(src@[i]));
    }
    I2Tensor { packed, scales, n }
}

/// The bytes of row `row` of a matrix with `k` columns.
pub fn row_bytes(w: &I2Tensor, row: usize, k: usize) -> (bytes: &[u8])
    requires
        k > 0,
        w.n % k == 0,
        (row + 1) * (k as int / 4) <= w.packed@.len(),
    ensures
        bytes@ == w.packed@.subrange(row * (k as int / 4), (row + 1) * (k as int / 4)),
{
    let row_len: usize = k / 4;
    let total: usize = w.packed.len();
    proof {
        let r = row as int;
        let l = row_len as int;
        assert((r + 1) * l == r * l + l && r * l >= 0) by (nonlinear_arith)
            requires
                r >= 0,
                l >= 0,
        ;
        assert(r * l + l <= total);
    }
    slice_subrange(w.packed.as_slice(), row * row_len, row * row_len + row_len)
}

/// A code read back is the code that was written, so a quantised weight is the sign of the number,
/// or zero where it is closer to zero than 10^-6.
pub proof fn lemma_quantised_sign(src: Seq<u32>, t: I2Tensor, i: int)
    requires
        t.n == src.len(),
        forall|j: int| 0 <= j < t.n ==> #[trigger] code_at(t.packed@, j) == ternary(src[j]),
        0 <= i < t.n,
        !is_nan(src[i]),
    ensures
        is_tiny(src[i]) ==> t.weight(i) == 0,
        !is_tiny(src[i]) ==> t.weight(i) == if value(src[i]) > 0 {
            1int
        } else {
            -1
        },
{
    assert(code_at(t.packed@, i) == ternary(src[i]));
}

/// The packed bytes of whole blocks are determined by the codes they hold.
pub proof fn lemma_packing_unique(a: Seq<u8>, b: Seq<u8>)
    requires
        a.len() == b.len(),
        a.len() % 16 == 0,
        forall|i: int| 0 <= i < 4 * a.len() ==> #[trigger] code_at(a, i) == code_at(b, i),
    ensures
        a == b,
{
    assert forall|m: int| 0 <= m < a.len() implies a[m] == b[m] by {
        let base = m / 16 * 64 + m % 16;
        lemma_field_home(m, 0);
        lemma_field_home(m, 1);
        lemma_field_home(m, 2);
        lemma_field_home(m, 3);
        assert(code_at(a, base) == code_at(b, base));
        assert(code_at(a, base + 16) == code_at(b, base + 16));
        assert(code_at(a, base + 32) == code_at(b, base + 32));
        assert(code_at(a, base + 48) == code_at(b, base + 48));
        lemma_byte_from_fields(a[m]);
        lemma_byte_from_fields(b[m]);
    }
    assert(a =~= b);
}

/// Field `g` of byte `m` holds weight `m / 16 * 64 + g * 16 + m % 16`.
proof fn lemma_field_home(m: int, g: int)
    requires
        0 <= m,
        0 <= g < 4,
    ensures
        byte_index(m / 16 * 64 + g * 16 + m % 16) == m,
        (m / 16 * 64 + g * 16 + m % 16) % 64 / 16 == g,
        (m / 16 * 64 + g * 16 + m % 16) / 64 == m / 16,
{
}

proof fn lemma_byte_from_fields(byte: u8)
    ensures
        byte == 64 * field(byte, 0) + 16 * field(byte, 1) + 4 * field(byte, 2) + field(byte, 3),
{
}

} // verus!
