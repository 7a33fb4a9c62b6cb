//! The choice of the next token among the logits.

use crate::arith::{exponential, from_count, minus, over, plus, total, Arith};
use crate::clock::{clock_read, nanos_since_epoch};
use crate::float::{at_most, is_nan, less_eq, not_a_number, value, ZERO};
use crate::ops::{divide_all, greatest, is_greatest, quotients};
use vstd::prelude::*;

verus! {

/// The pattern of 1e9.
pub const BILLION: u32 = 0x4e6e_6b28;

/// The seed where the clock cannot be read.
pub const FALLBACK_SEED: u64 = 0x9e37_79b9_7f4a_7c15;

/// The seed for a time in nanoseconds: its lower 64 bits.
pub open spec fn seed_for(nanos: Option<u128>) -> u64 {
    match nanos {
        Some(n) => (n as int % 0x1_0000_0000_0000_0000) as u64,
        None => FALLBACK_SEED,
    }
}

/// The seed for a time in nanoseconds: its lower 64 bits.
pub fn clock_seed(nanos: Option<u128>) -> (seed: u64)
    ensures
        seed == seed_for(nanos),
{
    match nanos {
        Some(n) => (n % 0x1_0000_0000_0000_0000) as u64,
        None => FALLBACK_SEED,
    }
}

/// A round of xorshift.
pub open spec fn scrambled(seed: u64) -> u64 {
    let a = seed ^ (seed << 13);
    let b = a ^ (a >> 7);
    b ^ (b << 17)
}

pub fn scramble(seed: u64) -> (r: u64)
    ensures
        r == scrambled(seed),
{
    let a: u64 = seed ^ (seed << 13);
    let b: u64 = a ^ (a >> 7);
    b ^ (b << 17)
}

/// Element `i` is the greatest of `v`, and the last one that is.
pub open spec fn is_last_greatest(v: Seq<u32>, i: int) -> bool {
    &&& 0 <= i < v.len()
    &&& forall|j: int| 0 <= j <= i ==> value(#[trigger] v[j]) <= value(v[i])
    &&& forall|j: int| i < j < v.len() ==> value(#[trigger] v[j]) < value(v[i])
}

/// Where greedy choice stops: the last one of the greatest logits, or 0 where there are none.
pub fn argmax(logits: &[u32]) -> (i: usize)
    requires
        logits@.len() > 1 ==> forall|j: int| 0 <= j < logits@.len() ==> !is_nan(
            #[trigger] logits@[j],
        ),
    ensures
        logits@.len() == 0 ==> i == 0,
        logits@.len() > 0 ==> is_last_greatest(logits@, i as int),
{
    let mut best: usize = 0;
    let mut i: usize = 1;
    while i < logits.len()
        invariant
            logits@.len() > 1 ==> forall|j: int| 0 <= j < logits@.len() ==> !is_nan(
                #[trigger] logits@[j],
            ),
            logits@.len() > 0 ==> best < i <= logits@.len(),
            logits@.len() == 0 ==> best == 0,
            logits@.len() > 0 ==> forall|j: int|
                0 <= j <= best ==> value(#[trigger] logits@[j]) <= value(logits@[best as int]),
            forall|j: int|
                best < j < i && j < logits@.len() ==> value(#[trigger] logits@[j]) < value(
                    logits@[best as int],
                ),
            i >= 1,
        decreases logits@.len() - i,
    {
        if less_eq(logits[best], logits[i]) {
            best = i;
        }
        i += 1;
    }
    best
}

/// `r` is e to the power of `(l - m) / temp`.
pub open spec fn tempered<A: Arith>(ar: &A, l: u32, m: u32, temp: u32, r: u32) -> bool {
    exists|d: u32, q: u32| #[trigger]
        minus(ar, l, m, d) && #[trigger] over(ar, d, temp, q) && exponential(ar, q, r)
}

/// `weights` holds that of each logit.
pub open spec fn tempered_all<A: Arith>(
    ar: &A,
    logits: Seq<u32>,
    m: u32,
    temp: u32,
    weights: Seq<u32>,
) -> bool {
    &&& weights.len() == logits.len()
    &&& forall|i: int|
        0 <= i < weights.len() ==> tempered(ar, logits[i], m, temp, #[trigger] weights[i])
}

/// `probs` are the probabilities of the tokens at temperature `temp`.
pub open spec fn probabilities<A: Arith>(
    ar: &A,
    logits: Seq<u32>,
    temp: u32,
    probs: Seq<u32>,
) -> bool {
    exists|m: u32, weights: Seq<u32>, sum: u32|
        is_greatest(logits, m) && #[trigger] tempered_all(ar, logits, m, temp, weights)
            && #[trigger] total(ar, weights, sum) && quotients(ar, weights, sum, probs)
}

/// The probabilities of the tokens at temperature `temp`.
pub fn token_probabilities<A: Arith>(ar: &A, logits: &[u32], temp: u32) -> (probs: Vec<u32>)
    ensures
        probabilities(ar, logits@, temp, probs@),
        probs@.len() == logits@.len(),
{
    let m: u32 = greatest(logits);
    let mut weights: Vec<u32> = Vec::new();
    let mut i: usize = 0;
    while i < logits.len()
        invariant
            i <= logits@.len(),
            weights@.len() == i,
            forall|j: int|
                0 <= j < i ==> tempered(ar, logits@[j], m, temp, #[trigger] weights@[j]),
        decreases logits@.len() - i,
    {
        let d: u32 = ar.minus(logits[i], m);
        let q: u32 = ar.over(d, temp);
        let w: u32 = ar.exponential(q);
        assert(minus(ar, logits@[i as int], m, d) && over(ar, d, temp, q));
        weights.push(w);
        i += 1;
    }
    let sum: u32 = ar.total(weights.as_slice());
    assert(tempered_all(ar, logits@, m, temp, weights@) && total(ar, weights@, sum));
    divide_all(ar, weights.as_slice(), sum)
}

/// `r` is a number from 0 to 1 that the seed leads to.
pub open spec fn drawn<A: Arith>(ar: &A, seed: u64, r: u32) -> bool {
    exists|a: u32|
        from_count(ar, scrambled(seed) % 1_000_000_000, a) && #[trigger] over(ar, a, BILLION, r)
}

pub fn draw<A: Arith>(ar: &A, seed: u64) -> (r: u32)
    ensures
        drawn(ar, seed, r),
{
    let a: u32 = ar.from_count(scramble(seed) % 1_000_000_000);
    let r: u32 = ar.over(a, BILLION);
    assert(over(ar, a, BILLION, r));
    r
}

/// Sum `i` is the one before it, or 0, plus probability `i`.
pub open spec fn sum_at<A: Arith>(ar: &A, probs: Seq<u32>, sums: Seq<u32>, i: int) -> bool {
    plus(
        ar,
        if i == 0 {
            ZERO
        } else {
            sums[i - 1]
        },
        probs[i],
        sums[i],
    )
}

/// `sums` are the sums of the first probabilities, up to the first one that is not less than `r`.
pub open spec fn sums_up_to<A: Arith>(ar: &A, probs: Seq<u32>, r: u32, sums: Seq<u32>) -> bool {
    &&& 0 < sums.len() <= probs.len()
    &&& forall|i: int| 0 <= i < sums.len() ==> #[trigger] sum_at(ar, probs, sums, i)
    &&& forall|i: int| 0 <= i < sums.len() - 1 ==> !at_most(r, #[trigger] sums[i])
    &&& sums.len() < probs.len() ==> at_most(r, sums.last())
}

/// The first token at which the sum of the probabilities reaches `r`, or the last one where the
/// sum never does.
pub fn pick<A: Arith>(ar: &A, probs: &[u32], r: u32) -> (i: usize)
    requires
        probs@.len() > 0,
    ensures
        i < probs@.len(),
        exists|sums: Seq<u32>| #[trigger]
            sums_up_to(ar, probs@, r, sums) && sums.len() == i + 1,
{
    let mut acc: u32 = ZERO;
    let ghost mut sums: Seq<u32> = Seq::empty();
    let mut i: usize = 0;
    while i < probs.len()
        invariant
            probs@.len() > 0,
            i <= probs@.len(),
            sums.len() == i,
            acc == if i == 0 {
                ZERO
            } else {
                sums[i - 1]
            },
            forall|j: int| 0 <= j < i ==> #[trigger] sum_at(ar, probs@, sums, j),
            forall|j: int| 0 <= j < i ==> !at_most(r, #[trigger] sums[j]),
        decreases probs@.len() - i,
    {
        acc = ar.plus(acc, probs[i]);
        proof {
            let before = sums;
            sums = sums.push(acc);
            assert forall|j: int| 0 <= j < i + 1 implies #[trigger] sum_at(ar, probs@, sums, j) by {
                if j < i {
                    assert(sum_at(ar, probs@, before, j));
                }
            }
        }
        if less_eq(r, acc) {
            assert(sums_up_to(ar, probs@, r, sums));
            return i;
        }
        i += 1;
    }
    assert(sums_up_to(ar, probs@, r, sums));
    probs.len() - 1
}

/// Token `i` is chosen at temperature `temp` with the seed `seed`: the greatest logit where the
/// temperature is not positive, else the token that a number drawn from the seed falls on.
pub open spec fn sampled<A: Arith>(
    ar: &A,
    logits: Seq<u32>,
    temp: u32,
    seed: u64,
    i: int,
) -> bool {
    if at_most(temp, ZERO) {
        if logits.len() == 0 {
            i == 0
        } else {
            is_last_greatest(logits, i)
        }
    } else {
        exists|probs: Seq<u32>, r: u32, sums: Seq<u32>| #[trigger]
            probabilities(ar, logits, temp, probs) && drawn(ar, seed, r) && #[trigger] sums_up_to(
                ar,
                probs,
                r,
                sums,
            ) && sums.len() == i + 1
    }
}

/// There is something to choose from: logits at all at a positive temperature, and else no two
/// logits that cannot be compared.
pub open spec fn can_sample(logits: Seq<u32>, temp: u32) -> bool {
    if at_most(temp, ZERO) {
        logits.len() > 1 ==> forall|j: int| 0 <= j < logits.len() ==> !is_nan(#[trigger] logits[j])
    } else {
        logits.len() > 0
    }
}

pub fn check_can_sample(logits: &[u32], temp: u32) -> (r: bool)
    ensures
        r == can_sample(logits@, temp),
{
    if !less_eq(temp, ZERO) {
        return logits.len() > 0;
    }
    if logits.len() <= 1 {
        return true;
    }
    let mut i: usize = 0;
    while i < logits.len()
        invariant
            i <= logits@.len(),
            at_most(temp, ZERO),
            logits@.len() > 1,
            forall|j: int| 0 <= j < i ==> !is_nan(#[trigger] logits@[j]),
        decreases logits@.len() - i,
    {
        if not_a_number(logits[i]) {
            return false;
        }
        i += 1;
    }
    true
}

/// `token` is the number, modulo 2^32, of a token that is chosen with the seed `seed`.
pub open spec fn is_sample<A: Arith>(
    ar: &A,
    logits: Seq<u32>,
    temp: u32,
    seed: u64,
    token: u32,
) -> bool {
    exists|i: int| #[trigger]
        sampled(ar, logits, temp, seed, i) && 0 <= i && token == (i % 0x1_0000_0000) as u32 && (
        logits.len() > 0 ==> i < logits.len())
}

/// The next token. The seed makes no difference where the temperature is not positive.
pub fn sample_with_seed<A: Arith>(ar: &A, logits: &[u32], temp: u32, seed: u64) -> (token: u32)
    requires
        can_sample(logits@, temp),
    ensures
        is_sample(ar, logits@, temp, seed, token),
{
    let i: usize = if less_eq(temp, ZERO) {
        argmax(logits)
    } else {
        let probs: Vec<u32> = token_probabilities(ar, logits, temp);
        let r: u32 = draw(ar, seed);
        pick(ar, probs.as_slice(), r)
    };
    assert(sampled(ar, logits@, temp, seed, i as int));
    (i as u64 % 0x1_0000_0000) as u32
}

/// `token` is the next token with the seed for a time: one that the clock can say, where the
/// temperature is positive. Else the seed makes no difference, and the clock is not read.
pub open spec fn sampled_token<A: Arith>(ar: &A, logits: Seq<u32>, temp: u32, token: u32) -> bool {
    exists|nanos: Option<u128>| #[trigger]
        is_sample(ar, logits, temp, seed_for(nanos), token) && (at_most(temp, ZERO) || clock_read(
            nanos,
        ))
}

/// The next token: the greatest logit where the temperature is not positive, else a token drawn by
/// its probability, with the time of the clock as the seed. Nothing is claimed of that time.
pub fn sample_token<A: Arith>(ar: &A, logits: &[u32], temp: u32) -> (token: u32)
    requires
        can_sample(logits@, temp),
    ensures
        sampled_token(ar, logits@, temp, token),
{
    let nanos: Option<u128> = if less_eq(temp, ZERO) {
        None
    } else {
        nanos_since_epoch()
    };
    let token: u32 = sample_with_seed(ar, logits, temp, clock_seed(nanos));
    assert(is_sample(ar, logits@, temp, seed_for(nanos), token));
    token
}

/// Where the temperature is not positive, the choice is deterministic: the same logits give the
/// same token, whatever the clock says.
pub proof fn lemma_greedy_is_deterministic<A: Arith>(
    ar: &A,
    logits: Seq<u32>,
    temp: u32,
    a: u32,
    b: u32,
)
    requires
        at_most(temp, ZERO),
        sampled_token(ar, logits, temp, a),
        sampled_token(ar, logits, temp, b),
    ensures
        a == b,
{
    let s = seed_for(
        choose|nanos: Option<u128>| #[trigger]
            is_sample(ar, logits, temp, seed_for(nanos), a),
    );
    let t = seed_for(
        choose|nanos: Option<u128>| #[trigger]
            is_sample(ar, logits, temp, seed_for(nanos), b),
    );
    let i = choose|i: int| #[trigger]
        sampled(ar, logits, temp, s, i) && 0 <= i && a == (i % 0x1_0000_0000) as u32 && (
        logits.len() > 0 ==> i < logits.len());
    let j = choose|j: int| #[trigger]
        sampled(ar, logits, temp, t, j) && 0 <= j && b == (j % 0x1_0000_0000) as u32 && (
        logits.len() > 0 ==> j < logits.len());
    if logits.len() > 0 {
        assert(value(logits[i]) <= value(logits[j]) || value(logits[j]) <= value(logits[i]));
    }
}

} // verus!
