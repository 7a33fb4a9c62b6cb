//! How the tokens of a text and of a reply are chosen, stated down to the arithmetic.

use crate::arith::{exponential, from_count, minus, over, plus, total, Arith};
use crate::chat::{replied, reply_over, turn_ids, CHAT_TEMPERATURE, DEFAULT_REPLY_TOKENS};
use crate::clock::clock_read;
use crate::float::{at_most, is_nan, lemma_positive, value};
use crate::forward::forwarded;
use crate::generation::{fed_at, generated, prompt_ids, stuck, Run};
use crate::model::Model;
use crate::ops::{is_greatest, quotients};
use crate::sampling::{
    can_sample, drawn, is_sample, probabilities, sampled, sampled_token, scrambled, seed_for,
    sum_at, sums_up_to, tempered, tempered_all, BILLION,
};
use crate::tokenizer::text_ids;
use vstd::arithmetic::power2::{lemma_pow2_pos, lemma_pow2_unfold, pow2};
use vstd::prelude::*;

verus! {

/// What goes into the choice of a token at a positive temperature.
pub struct Draw {
    /// What the clock says.
    pub nanos: Option<u128>,
    /// The greatest logit.
    pub max: u32,
    /// The differences of the logits to it, and those over the temperature.
    pub gaps: Seq<u32>,
    pub tempered: Seq<u32>,
    /// e to the power of each, and the sum of all.
    pub weights: Seq<u32>,
    pub sum: u32,
    /// The weights over their sum.
    pub probs: Seq<u32>,
    /// The number that the clock leads to, and that number over 10^9.
    pub count: u32,
    pub number: u32,
    /// The sums of the first probabilities, the last of them the one that the number falls on.
    pub sums: Seq<u32>,
}

/// The weights of a draw are e to the power of the logits less the greatest one, over the
/// temperature `temp`, and its probabilities the weights over their sum.
pub open spec fn weighs<A: Arith>(ar: &A, logits: Seq<u32>, temp: u32, d: Draw) -> bool {
    &&& !is_nan(d.max)
    &&& forall|i: int|
        0 <= i < logits.len() && !is_nan(#[trigger] logits[i]) ==> value(logits[i]) <= value(d.max)
    &&& d.max == 0xff80_0000 || logits.contains(d.max)
    &&& d.gaps.len() == logits.len()
    &&& d.tempered.len() == logits.len()
    &&& d.weights.len() == logits.len()
    &&& d.probs.len() == logits.len()
    &&& forall|i: int|
        0 <= i < logits.len() ==> minus(ar, logits[i], d.max, #[trigger] d.gaps[i])
    &&& forall|i: int|
        0 <= i < logits.len() ==> over(ar, d.gaps[i], temp, #[trigger] d.tempered[i])
    &&& forall|i: int|
        0 <= i < logits.len() ==> exponential(ar, d.tempered[i], #[trigger] d.weights[i])
    &&& total(ar, d.weights, d.sum)
    &&& forall|i: int|
        0 <= i < logits.len() ==> over(ar, d.weights[i], d.sum, #[trigger] d.probs[i])
}

/// The number of a draw is a round of xorshift on what the clock says, modulo 10^9 and over 10^9.
pub open spec fn draws<A: Arith>(ar: &A, d: Draw) -> bool {
    let seed = match d.nanos {
        Some(n) => (n as int % 0x1_0000_0000_0000_0000) as u64,
        None => 0x9e37_79b9_7f4a_7c15u64,
    };
    let a = seed ^ (seed << 13);
    let b = a ^ (a >> 7);
    let c = b ^ (b << 17);
    &&& clock_read(d.nanos)
    &&& from_count(ar, c % 1_000_000_000, d.count)
    &&& over(ar, d.count, 0x4e6e_6b28, d.number)
}

/// A draw falls on `token`: the sum of the probabilities up to this token is the first one that is
/// not less than the number, or it is the last token of all.
pub open spec fn falls_on<A: Arith>(ar: &A, d: Draw, token: int) -> bool {
    &&& 0 <= token < d.probs.len()
    &&& d.sums.len() == token + 1
    &&& plus(ar, 0, d.probs[0], d.sums[0])
    &&& forall|i: int|
        #![trigger d.sums[i]]
        1 <= i <= token ==> plus(ar, d.sums[i - 1], d.probs[i], d.sums[i])
    &&& forall|i: int| 0 <= i < token ==> !at_most(d.number, #[trigger] d.sums[i])
    &&& token < d.probs.len() - 1 ==> at_most(d.number, d.sums[token])
}

/// Where the temperature is not positive, the token is the greatest logit, and the last one of
/// those that are equal. Its number is its place among the logits.
pub proof fn lemma_greedy_choice<A: Arith>(ar: &A, logits: Seq<u32>, temp: u32, token: u32)
    requires
        0 < logits.len() <= 0x1_0000_0000,
        !is_nan(temp),
        value(temp) <= 0,
        sampled_token(ar, logits, temp, token),
    ensures
        token < logits.len(),
        forall|j: int|
            0 <= j < logits.len() ==> value(#[trigger] logits[j]) <= value(logits[token as int]),
        forall|j: int|
            token < j < logits.len() ==> value(#[trigger] logits[j]) < value(logits[token as int]),
{
    let nanos = choose|nanos: Option<u128>| #[trigger]
        is_sample(ar, logits, temp, seed_for(nanos), token);
    let i = choose|i: int| #[trigger]
        sampled(ar, logits, temp, seed_for(nanos), i) && 0 <= i && token == (i % 0x1_0000_0000)
            as u32 && (logits.len() > 0 ==> i < logits.len());
    assert(i == token);
}

/// Where the temperature is positive, the token is the one that a number drawn from a reading of
/// the clock falls on in the sums of the softmax of the logits over this temperature. Its number is
/// its place among the logits.
pub proof fn lemma_drawn_choice<A: Arith>(ar: &A, logits: Seq<u32>, temp: u32, token: u32) -> (d:
    Draw)
    requires
        0 < logits.len() <= 0x1_0000_0000,
        is_nan(temp) || value(temp) > 0,
        sampled_token(ar, logits, temp, token),
    ensures
        weighs(ar, logits, temp, d),
        draws(ar, d),
        falls_on(ar, d, token as int),
{
    let nanos = choose|nanos: Option<u128>| #[trigger]
        is_sample(ar, logits, temp, seed_for(nanos), token) && (at_most(temp, 0) || clock_read(
            nanos,
        ));
    let seed = seed_for(nanos);
    let i = choose|i: int| #[trigger]
        sampled(ar, logits, temp, seed, i) && 0 <= i && token == (i % 0x1_0000_0000) as u32 && (
        logits.len() > 0 ==> i < logits.len());
    assert(i == token);
    let (probs, number, sums) = choose|probs: Seq<u32>, r: u32, sums: Seq<u32>| #[trigger]
        probabilities(ar, logits, temp, probs) && drawn(ar, seed, r) && #[trigger] sums_up_to(
            ar,
            probs,
            r,
            sums,
        ) && sums.len() == i + 1;
    let (max, weights, sum) = choose|m: u32, weights: Seq<u32>, sum: u32|
        is_greatest(logits, m) && #[trigger] tempered_all(ar, logits, m, temp, weights)
            && #[trigger] total(ar, weights, sum) && quotients(ar, weights, sum, probs);
    let count = choose|a: u32|
        from_count(ar, scrambled(seed) % 1_000_000_000, a) && #[trigger] over(
            ar,
            a,
            BILLION,
            number,
        );
    let gap = |k: int| -> u32 {
        (choose|g: u32, q: u32| #[trigger]
            minus(ar, logits[k], max, g) && #[trigger] over(ar, g, temp, q) && exponential(
                ar,
                q,
                weights[k],
            )).0
    };
    let quotient = |k: int| -> u32 {
        (choose|g: u32, q: u32| #[trigger]
            minus(ar, logits[k], max, g) && #[trigger] over(ar, g, temp, q) && exponential(
                ar,
                q,
                weights[k],
            )).1
    };
    let gaps = Seq::new(logits.len(), gap);
    let quotients_of = Seq::new(logits.len(), quotient);
    let d = Draw {
        nanos,
        max,
        gaps,
        tempered: quotients_of,
        weights,
        sum,
        probs,
        count,
        number,
        sums,
    };
    assert forall|k: int| 0 <= k < logits.len() implies minus(ar, logits[k], max, #[trigger] gaps[k])
        && over(ar, gaps[k], temp, quotients_of[k]) && exponential(
        ar,
        quotients_of[k],
        weights[k],
    ) by {
        assert(tempered(ar, logits[k], max, temp, weights[k]));
    }
    assert forall|k: int| 0 <= k < logits.len() implies over(
        ar,
        d.gaps[k],
        temp,
        #[trigger] d.tempered[k],
    ) by {
        assert(gaps[k] == d.gaps[k]);
    }
    assert forall|k: int| 0 <= k < logits.len() implies exponential(
        ar,
        d.tempered[k],
        #[trigger] d.weights[k],
    ) by {
        assert(gaps[k] == d.gaps[k]);
    }
    assert(sum_at(ar, probs, sums, 0));
    assert forall|k: int|
        #![trigger d.sums[k]]
        1 <= k <= token implies plus(ar, d.sums[k - 1], d.probs[k], d.sums[k]) by {
        assert(sum_at(ar, probs, sums, k));
    }
    d
}

/// A prompt is the token that starts a text and then the tokens of the prompt. What a chat gives the
/// model for an input is the input with what goes before and behind it, and no token that starts a
/// text.
pub proof fn lemma_what_is_fed(m: Model, text: Seq<char>)
    ensures
        prompt_ids(m, text).len() == 1 + text_ids(
            m.tokenizer.tokens(),
            m.tokenizer.ranks(),
            text,
        ).len(),
        prompt_ids(m, text)[0] == m.bos_id,
        prompt_ids(m, text).skip(1) == text_ids(m.tokenizer.tokens(), m.tokenizer.ranks(), text),
        turn_ids(m, text) == text_ids(
            m.tokenizer.tokens(),
            m.tokenizer.ranks(),
            "Human: "@ + text + "\n\nBITNETAssistant: "@,
        ),
{
    assert(prompt_ids(m, text).skip(1) =~= text_ids(
        m.tokenizer.tokens(),
        m.tokenizer.ranks(),
        text,
    ));
}

/// A text is generated from caches of zeros, one element for each layer, head of keys, position and
/// dimension.
pub proof fn lemma_generated_from_nothing<A: Arith>(
    ar: &A,
    m: Model,
    ids: Seq<u32>,
    temp: u32,
    max: int,
    run: Run,
    out: Seq<u32>,
)
    requires
        generated(ar, m, ids, temp, max, run, out),
    ensures
        run.keys.len() == ids.len() + out.len() + 1,
        run.values.len() == ids.len() + out.len() + 1,
        run.keys[0].len() == m.n_layer * (m.n_head_kv * m.n_ctx * m.head_dim),
        run.values[0].len() == m.n_layer * (m.n_head_kv * m.n_ctx * m.head_dim),
        forall|i: int| 0 <= i < run.keys[0].len() ==> #[trigger] run.keys[0][i] == 0,
        forall|i: int| 0 <= i < run.values[0].len() ==> #[trigger] run.values[0][i] == 0,
        forall|i: int|
            0 <= i < ids.len() + out.len() ==> forwarded(
                ar,
                m,
                (ids + out)[i] as int,
                i,
                run.keys[i],
                run.values[i],
                run.keys[i + 1],
                run.values[i + 1],
                #[trigger] run.logits[i],
            ),
{
    assert forall|i: int| 0 <= i < ids.len() + out.len() implies forwarded(
        ar,
        m,
        (ids + out)[i] as int,
        i,
        run.keys[i],
        run.values[i],
        run.keys[i + 1],
        run.values[i + 1],
        #[trigger] run.logits[i],
    ) by {
        assert(fed_at(ar, m, 0, run, i));
    }
}

/// Every generated token is one that may be chosen among the logits of the token before it at the
/// temperature that was asked for, and none of them ends the text. The text ends because it has as
/// many tokens as were asked for, because the context is full, or because the last logits chose the
/// token that ends it, at the same temperature.
pub proof fn lemma_generated_at_temperature<A: Arith>(
    ar: &A,
    m: Model,
    ids: Seq<u32>,
    temp: u32,
    max: int,
    run: Run,
    out: Seq<u32>,
)
    requires
        generated(ar, m, ids, temp, max, run, out),
    ensures
        run.fed == ids + out,
        out.len() <= max,
        forall|j: int|
            0 <= j < out.len() ==> sampled_token(
                ar,
                run.logits[ids.len() + j - 1],
                temp,
                #[trigger] out[j],
            ),
        forall|j: int| 0 <= j < out.len() ==> #[trigger] out[j] != m.eos_id,
        out.len() < max && ids.len() + out.len() < m.n_ctx ==> sampled_token(
            ar,
            run.logits.last(),
            temp,
            m.eos_id,
        ),
{
}

/// At a positive temperature, each generated token is the one that a number drawn from a reading
/// of the clock falls on in the sums of the softmax of the logits before it over the temperature
/// that was asked for.
pub proof fn lemma_generated_by_draws<A: Arith>(
    ar: &A,
    m: Model,
    ids: Seq<u32>,
    temp: u32,
    max: int,
    run: Run,
    out: Seq<u32>,
    j: int,
) -> (d: Draw)
    requires
        generated(ar, m, ids, temp, max, run, out),
        is_nan(temp) || value(temp) > 0,
        0 <= j < out.len(),
        0 < run.logits[ids.len() + j - 1].len() <= 0x1_0000_0000,
    ensures
        weighs(ar, run.logits[ids.len() + j - 1], temp, d),
        draws(ar, d),
        falls_on(ar, d, out[j] as int),
{
    lemma_drawn_choice(ar, run.logits[ids.len() + j - 1], temp, out[j])
}

/// At a temperature that is not positive, each generated token is the greatest logit before it.
pub proof fn lemma_generated_greedily<A: Arith>(
    ar: &A,
    m: Model,
    ids: Seq<u32>,
    temp: u32,
    max: int,
    run: Run,
    out: Seq<u32>,
    j: int,
)
    requires
        generated(ar, m, ids, temp, max, run, out),
        !is_nan(temp),
        value(temp) <= 0,
        0 <= j < out.len(),
        0 < run.logits[ids.len() + j - 1].len() <= 0x1_0000_0000,
    ensures
        out[j] < run.logits[ids.len() + j - 1].len(),
        forall|t: int|
            0 <= t < run.logits[ids.len() + j - 1].len() ==> value(
                #[trigger] run.logits[ids.len() + j - 1][t],
            ) <= value(run.logits[ids.len() + j - 1][out[j] as int]),
        forall|t: int|
            out[j] < t < run.logits[ids.len() + j - 1].len() ==> value(
                #[trigger] run.logits[ids.len() + j - 1][t],
            ) < value(run.logits[ids.len() + j - 1][out[j] as int]),
{
    lemma_greedy_choice(ar, run.logits[ids.len() + j - 1], temp, out[j]);
}

/// A text can only get stuck where the temperature that was asked for is not positive and a logit
/// is not a number.
pub proof fn lemma_stuck_only_where_greedy<A: Arith>(
    ar: &A,
    m: Model,
    ids: Seq<u32>,
    temp: u32,
    max: int,
    run: Run,
    out: Seq<u32>,
)
    requires
        stuck(ar, m, ids, temp, max, run, out),
        run.logits.last().len() > 0,
    ensures
        !is_nan(temp) && value(temp) <= 0,
        exists|t: int| 0 <= t < run.logits.last().len() && is_nan(#[trigger] run.logits.last()[t]),
{
    assert(!can_sample(run.logits.last(), temp));
}

/// The temperature of a chat is the single-precision number closest to 0.6: no other pattern is
/// as close to it. A reply has up to 120 tokens where nothing else is asked for.
pub proof fn lemma_chat_settings()
    ensures
        DEFAULT_REPLY_TOKENS == 120,
        !is_nan(CHAT_TEMPERATURE),
        CHAT_TEMPERATURE == 0x3f19_999a,
        10 * value(0x3f19_9999) < 6 * value(0x3f80_0000) < 10 * value(CHAT_TEMPERATURE),
        10 * value(CHAT_TEMPERATURE) - 6 * value(0x3f80_0000) < 6 * value(0x3f80_0000) - 10 * value(
            0x3f19_9999,
        ),
{
    let e = pow2(125);
    assert(value(0x3f19_9999) == 0x99_9999 * e);
    assert(value(CHAT_TEMPERATURE) == 0x99_999a * e);
    assert(value(0x3f80_0000) == 0x80_0000 * pow2(126));
    lemma_pow2_unfold(126);
    lemma_pow2_pos(125);
    assert(value(0x3f80_0000) == 0x100_0000 * e);
}

/// No token of a reply is the one that ends a text, each is one that may be chosen by the logits
/// before it at the temperature of a chat, and a reply that is shorter than it may be, with room
/// left in the context, ended because the last logits chose the token that ends a text.
pub proof fn lemma_reply_ends_where_it_must<A: Arith>(
    ar: &A,
    m: Model,
    start: int,
    ids: Seq<u32>,
    last: u32,
    max: int,
    run: Run,
    out: Seq<u32>,
    full: bool,
)
    requires
        replied(ar, m, start, ids, last, max, run, out),
        reply_over(ar, m, start, ids, max, run, out, full),
    ensures
        forall|j: int| 0 <= j < out.len() ==> #[trigger] out[j] != m.eos_id,
        forall|j: int|
            0 <= j < out.len() ==> sampled_token(
                ar,
                run.logits[ids.len() + j],
                0x3f19_999a,
                #[trigger] out[j],
            ),
        out.len() <= max,
        out.len() < max && start + run.fed.len() < m.n_ctx ==> !full && sampled_token(
            ar,
            run.logits.last(),
            0x3f19_999a,
            m.eos_id,
        ) && run.fed == ids + seq![last] + out,
        full ==> out.len() < max && start + run.fed.len() >= m.n_ctx,
        out.len() < max && !full ==> sampled_token(
            ar,
            run.logits.last(),
            0x3f19_999a,
            m.eos_id,
        ),
{
    let all = ids + seq![last] + out;
    if run.fed.len() == all.len() {
        assert(all.take(run.fed.len() as int) =~= all);
    }
}

/// A turn takes the tokens of the input, the last token once more and the tokens of the reply through
/// the model, each at the position behind the one before it, and each with the caches that the one
/// before it left.
pub proof fn lemma_turn_goes_on<A: Arith>(
    ar: &A,
    m: Model,
    start: int,
    ids: Seq<u32>,
    last: u32,
    max: int,
    run: Run,
    out: Seq<u32>,
)
    requires
        replied(ar, m, start, ids, last, max, run, out),
    ensures
        ids.len() + out.len() <= run.fed.len() <= ids.len() + 1 + out.len(),
        run.fed.len() > ids.len() ==> start + run.fed.len() <= m.n_ctx,
        run.keys.len() == run.fed.len() + 1,
        run.values.len() == run.fed.len() + 1,
        forall|i: int|
            0 <= i < run.fed.len() ==> forwarded(
                ar,
                m,
                (ids + seq![last] + out)[i] as int,
                start + i,
                run.keys[i],
                run.values[i],
                run.keys[i + 1],
                run.values[i + 1],
                #[trigger] run.logits[i],
            ),
{
    let all = ids + seq![last] + out;
    assert forall|i: int| 0 <= i < run.fed.len() implies forwarded(
        ar,
        m,
        all[i] as int,
        start + i,
        run.keys[i],
        run.values[i],
        run.keys[i + 1],
        run.values[i + 1],
        #[trigger] run.logits[i],
    ) by {
        assert(fed_at(ar, m, start, run, i));
        assert(all.take(run.fed.len() as int)[i] == all[i]);
    }
}

/// Each token of a reply is the one that a number drawn from a reading of the clock falls on in
/// the sums of the softmax of the logits before it over the temperature of a chat.
pub proof fn lemma_replied_by_draws<A: Arith>(
    ar: &A,
    m: Model,
    start: int,
    ids: Seq<u32>,
    last: u32,
    max: int,
    run: Run,
    out: Seq<u32>,
    j: int,
) -> (d: Draw)
    requires
        replied(ar, m, start, ids, last, max, run, out),
        0 <= j < out.len(),
        0 < run.logits[ids.len() + j].len() <= 0x1_0000_0000,
    ensures
        weighs(ar, run.logits[ids.len() + j], 0x3f19_999a, d),
        draws(ar, d),
        falls_on(ar, d, out[j] as int),
{
    lemma_positive(CHAT_TEMPERATURE);
    lemma_drawn_choice(ar, run.logits[ids.len() + j], CHAT_TEMPERATURE, out[j])
}

} // verus!
