//! Runs of the model: prompts, generated texts and turns of a chat.

use crate::arith::Arith;
use crate::bytes::spells;
use crate::cache::{cache_fits, holds_layers, layer_len, layout, KVCache};
use crate::float::ZERO;
use crate::forward::{check_knows, embedding, forward_token, forwarded, knows, ready, room};
use crate::model::Model;
use crate::sampling::{
    can_sample, check_can_sample, is_sample, sample_token, sampled, sampled_token, seed_for,
};
use crate::tokenizer::{ids_bytes, text_ids};
use crate::weights::{LoadError, ModelError};
use vstd::arithmetic::div_mod::lemma_fundamental_div_mod;
use vstd::prelude::*;

verus! {

/// A run of tokens through the model: the tokens, the caches before and after each of them, and
/// the logits of each.
pub struct Run {
    pub fed: Seq<u32>,
    pub keys: Seq<Seq<u32>>,
    pub values: Seq<Seq<u32>>,
    pub logits: Seq<Seq<u32>>,
}

/// Token `i` of the run goes through the model at position `start + i`.
pub open spec fn fed_at<A: Arith>(ar: &A, m: Model, start: int, run: Run, i: int) -> bool {
    forwarded(
        ar,
        m,
        run.fed[i] as int,
        start + i,
        run.keys[i],
        run.values[i],
        run.keys[i + 1],
        run.values[i + 1],
        run.logits[i],
    )
}

/// The tokens go through the model one after the other, from position `start` on.
pub open spec fn is_run<A: Arith>(ar: &A, m: Model, start: int, run: Run) -> bool {
    &&& run.keys.len() == run.fed.len() + 1
    &&& run.values.len() == run.fed.len() + 1
    &&& run.logits.len() == run.fed.len()
    &&& forall|i: int| 0 <= i < run.fed.len() ==> #[trigger] fed_at(ar, m, start, run, i)
}

/// The run starts with the caches `k` and `v`.
pub open spec fn starts_with(run: Run, k: Seq<u32>, v: Seq<u32>) -> bool {
    run.keys.first() == k && run.values.first() == v
}

/// The run ends with the caches `k` and `v`.
pub open spec fn ends_with(run: Run, k: Seq<u32>, v: Seq<u32>) -> bool {
    run.keys.last() == k && run.values.last() == v
}

/// The run of no tokens.
pub open spec fn empty_run(k: Seq<u32>, v: Seq<u32>) -> Run {
    Run { fed: Seq::empty(), keys: seq![k], values: seq![v], logits: Seq::empty() }
}

/// The run `a`, and then the run `b`.
pub open spec fn joined(a: Run, b: Run) -> Run {
    Run {
        fed: a.fed + b.fed,
        keys: a.keys.drop_last() + b.keys,
        values: a.values.drop_last() + b.values,
        logits: a.logits + b.logits,
    }
}

/// The cache carries a run on: tokens that go through the model in two runs, the second of which
/// starts with the caches and at the position that the first one ends with, go through it in one.
pub proof fn lemma_runs_join<A: Arith>(ar: &A, m: Model, start: int, a: Run, b: Run)
    requires
        is_run(ar, m, start, a),
        is_run(ar, m, start + a.fed.len(), b),
        starts_with(b, a.keys.last(), a.values.last()),
    ensures
        is_run(ar, m, start, joined(a, b)),
        starts_with(joined(a, b), a.keys.first(), a.values.first()),
        ends_with(joined(a, b), b.keys.last(), b.values.last()),
{
    let r = joined(a, b);
    let n = a.fed.len() as int;
    assert forall|i: int| 0 <= i < r.fed.len() implies #[trigger] fed_at(ar, m, start, r, i) by {
        if i < n {
            assert(fed_at(ar, m, start, a, i));
        } else {
            assert(fed_at(ar, m, start + n, b, i - n));
        }
    }
}

/// A run and one more token make a run.
pub proof fn lemma_token_joins<A: Arith>(
    ar: &A,
    m: Model,
    start: int,
    a: Run,
    token: u32,
    k: Seq<u32>,
    v: Seq<u32>,
    logits: Seq<u32>,
) -> (r: Run)
    requires
        is_run(ar, m, start, a),
        forwarded(
            ar,
            m,
            token as int,
            start + a.fed.len(),
            a.keys.last(),
            a.values.last(),
            k,
            v,
            logits,
        ),
    ensures
        is_run(ar, m, start, r),
        r.fed == a.fed.push(token),
        r.logits == a.logits.push(logits),
        starts_with(r, a.keys.first(), a.values.first()),
        ends_with(r, k, v),
{
    let b = Run {
        fed: seq![token],
        keys: seq![a.keys.last(), k],
        values: seq![a.values.last(), v],
        logits: seq![logits],
    };
    assert(fed_at(ar, m, start + a.fed.len(), b, 0));
    lemma_runs_join(ar, m, start, a, b);
    let r = joined(a, b);
    assert(r.fed =~= a.fed.push(token));
    assert(r.logits =~= a.logits.push(logits));
    r
}

/// The table has a row for each of the tokens.
pub open spec fn knows_all(m: Model, ids: Seq<u32>) -> bool {
    forall|i: int| 0 <= i < ids.len() ==> knows(m, #[trigger] ids[i])
}

/// Tells whether the table has a row for each of the tokens.
pub fn check_knows_all(m: &Model, ids: &[u32]) -> (r: bool)
    ensures
        r == knows_all(*m, ids@),
{
    let mut i: usize = 0;
    while i < ids.len()
        invariant
            i <= ids@.len(),
            forall|j: int| 0 <= j < i ==> knows(*m, #[trigger] ids@[j]),
        decreases ids@.len() - i,
    {
        if !check_knows(m, ids[i]) {
            assert(!knows(*m, ids@[i as int]));
            return false;
        }
        i += 1;
    }
    true
}

/// Takes tokens through the model. The logits of the last one come out, if there is one.
pub fn feed<A: Arith>(ar: &A, model: &Model, kv: &mut KVCache, ids: &[u32]) -> (logits: Vec<u32>)
    requires
        ready(*model),
        knows_all(*model, ids@),
        old(kv).fits(*model),
        room(*model, old(kv).pos as int, ids@.len() as int),
    ensures
        final(kv).fits(*model),
        final(kv).pos == old(kv).pos + ids@.len(),
        exists|run: Run| #[trigger]
            is_run(ar, *model, old(kv).pos as int, run) && run.fed == ids@ && run.keys[0] == old(
                kv,
            ).k@ && run.values[0] == old(kv).v@ && starts_with(
                run,
                old(kv).k@,
                old(kv).v@,
            ) && ends_with(run, final(kv).k@, final(kv).v@) && logits@ == (if ids@.len() > 0 {
                run.logits.last()
            } else {
                Seq::empty()
            }),
        ids@.len() > 0 ==> logits@.len() == embedding(*model).len() as int / model.n_embd as int
            && logits@.len() > 0,
{
    let ghost start = kv.pos as int;
    let ghost k0 = kv.k@;
    let ghost v0 = kv.v@;
    let ghost mut run = empty_run(k0, v0);
    let mut logits: Vec<u32> = Vec::new();
    let mut i: usize = 0;
    while i < ids.len()
        invariant
            ready(*model),
            knows_all(*model, ids@),
            kv.fits(*model),
            kv.pos == start + i,
            room(*model, start, ids@.len() as int),
            i <= ids@.len(),
            is_run(ar, *model, start, run),
            run.fed == ids@.take(i as int),
            starts_with(run, k0, v0),
            ends_with(run, kv.k@, kv.v@),
            logits@ == (if i > 0 {
                run.logits.last()
            } else {
                Seq::empty()
            }),
            i > 0 ==> logits@.len() == embedding(*model).len() as int / model.n_embd as int
                && logits@.len() > 0,
        decreases ids@.len() - i,
    {
        logits = forward_token(ar, model, kv, ids[i]);
        proof {
            run = lemma_token_joins(
                ar,
                *model,
                start,
                run,
                ids@[i as int],
                kv.k@,
                kv.v@,
                logits@,
            );
            assert(run.fed =~= ids@.take(i + 1));
        }
        i += 1;
    }
    assert(ids@.take(i as int) =~= ids@);
    logits
}

/// A token that is chosen among the logits of the model is in its table.
pub proof fn lemma_sample_known<A: Arith>(ar: &A, m: Model, logits: Seq<u32>, temp: u32, token: u32)
    requires
        m.n_embd > 0,
        logits.len() == embedding(m).len() as int / m.n_embd as int,
        logits.len() > 0,
        sampled_token(ar, logits, temp, token),
    ensures
        knows(m, token),
{
    let seed = seed_for(
        choose|nanos: Option<u128>| #[trigger]
            is_sample(ar, logits, temp, seed_for(nanos), token),
    );
    let i = choose|i: int| #[trigger]
        sampled(ar, logits, temp, seed, i) && 0 <= i && token == (i % 0x1_0000_0000) as u32 && (
        logits.len() > 0 ==> i < logits.len());
    let rows = logits.len() as int;
    let n = m.n_embd as int;
    let len = embedding(m).len() as int;
    let t = token + 1;
    assert(t <= rows);
    lemma_fundamental_div_mod(len, n);
    assert(t * n <= n * rows) by (nonlinear_arith)
        requires
            t <= rows,
            n > 0,
    ;
}

/// The numbers of a prompt.
pub open spec fn prompt_ids(m: Model, prompt: Seq<char>) -> Seq<u32> {
    seq![m.bos_id] + text_ids(m.tokenizer.tokens(), m.tokenizer.ranks(), prompt)
}

/// `text` is the text of generated tokens.
pub open spec fn is_text_of(m: Model, out: Seq<u32>, text: Seq<char>) -> bool {
    spells(ids_bytes(m.tokenizer.tokens(), Map::empty(), out), text)
}

/// The cache of the model before the first token.
pub open spec fn is_fresh(m: Model, c: Seq<u32>) -> bool {
    &&& c.len() == m.n_layer * layer_len(layout(m))
    &&& forall|i: int| 0 <= i < c.len() ==> c[i] == ZERO
}

/// A run from an empty cache feeds the prompt and then `out`: each token of it is chosen by the
/// logits of the token before it, none of them ends the text, and they are no more than `max`.
pub open spec fn continued<A: Arith>(
    ar: &A,
    m: Model,
    ids: Seq<u32>,
    temp: u32,
    max: int,
    run: Run,
    out: Seq<u32>,
) -> bool {
    &&& is_run(ar, m, 0, run)
    &&& is_fresh(m, run.keys.first())
    &&& is_fresh(m, run.values.first())
    &&& run.fed == ids + out
    &&& out.len() > 0 ==> run.fed.len() <= m.n_ctx
    &&& out.len() <= max
    &&& forall|j: int|
        0 <= j < out.len() ==> sampled_token(
            ar,
            run.logits[ids.len() + j - 1],
            temp,
            #[trigger] out[j],
        ) && out[j] != m.eos_id
}

/// The run is over: there are as many tokens as were asked for, the cache is full, or the token
/// that ends the text is chosen.
pub open spec fn generated<A: Arith>(
    ar: &A,
    m: Model,
    ids: Seq<u32>,
    temp: u32,
    max: int,
    run: Run,
    out: Seq<u32>,
) -> bool {
    &&& continued(ar, m, ids, temp, max, run, out)
    &&& out.len() == max || run.fed.len() >= m.n_ctx || sampled_token(
        ar,
        run.logits.last(),
        temp,
        m.eos_id,
    )
}

/// The run cannot go on: there is a token to choose, but no choosing among the logits.
pub open spec fn stuck<A: Arith>(
    ar: &A,
    m: Model,
    ids: Seq<u32>,
    temp: u32,
    max: int,
    run: Run,
    out: Seq<u32>,
) -> bool {
    &&& continued(ar, m, ids, temp, max, run, out)
    &&& out.len() < max
    &&& run.fed.len() < m.n_ctx
    &&& !can_sample(run.logits.last(), temp)
}

/// What was generated.
pub struct Generation {
    /// The text, without the prompt and without the token that ends it.
    pub text: String,
    /// The number of tokens of the prompt.
    pub prompt_tokens: usize,
    /// The number of tokens that were generated.
    pub gen_tokens: usize,
}

fn not_comparable() -> (e: ModelError)
    ensures
        e@ == LoadError::Format("logits 无法比较"@),
{
    ModelError::Format("logits 无法比较".to_owned())
}

/// Takes a token through the model and chooses the one behind it.
pub fn next_token<A: Arith>(ar: &A, model: &Model, kv: &mut KVCache, last: u32, temp: u32) -> (r:
    Result<u32, ModelError>)
    requires
        ready(*model),
        knows(*model, last),
        old(kv).fits(*model),
        room(*model, old(kv).pos as int, 1),
    ensures
        final(kv).fits(*model),
        final(kv).pos == old(kv).pos + 1,
        exists|logits: Seq<u32>| #[trigger]
            forwarded(
                ar,
                *model,
                last as int,
                old(kv).pos as int,
                old(kv).k@,
                old(kv).v@,
                final(kv).k@,
                final(kv).v@,
                logits,
            ) && match r {
                Ok(token) => can_sample(logits, temp) && sampled_token(ar, logits, temp, token)
                    && knows(*model, token),
                Err(e) => !can_sample(logits, temp) && e@ == LoadError::Format("logits 无法比较"@),
            },
{
    let logits: Vec<u32> = forward_token(ar, model, kv, last);
    if !check_can_sample(logits.as_slice(), temp) {
        return Err(not_comparable());
    }
    let token: u32 = sample_token(ar, logits.as_slice(), temp);
    proof {
        lemma_sample_known(ar, *model, logits@, temp, token);
    }
    Ok(token)
}

impl Model {
    /// Generates up to `max_tokens` tokens behind a prompt, from an empty cache.
    pub fn generate<A: Arith>(&self, ar: &A, prompt: &str, max_tokens: u32, temp: u32) -> (r: Result<
        Generation,
        ModelError,
    >)
        requires
            ready(*self),
            cache_fits(*self),
            holds_layers(*self),
            knows_all(*self, prompt_ids(*self, prompt@)),
            room(*self, 0, prompt_ids(*self, prompt@).len() as int),
        ensures
            match r {
                Ok(g) => exists|run: Run, out: Seq<u32>| #[trigger]
                    generated(
                        ar,
                        *self,
                        prompt_ids(*self, prompt@),
                        temp,
                        max_tokens as int,
                        run,
                        out,
                    ) && is_text_of(*self, out, g.text@) && g.prompt_tokens == prompt_ids(
                        *self,
                        prompt@,
                    ).len() && g.gen_tokens == out.len() && run.fed == prompt_ids(*self, prompt@)
                        + out && (forall|j: int|
                        0 <= j < out.len() ==> sampled_token(
                            ar,
                            run.logits[g.prompt_tokens + j - 1],
                            temp,
                            #[trigger] out[j],
                        ) && out[j] != self.eos_id) && (g.gen_tokens < max_tokens && g.prompt_tokens
                        + g.gen_tokens < self.n_ctx ==> sampled_token(
                        ar,
                        run.logits.last(),
                        temp,
                        self.eos_id,
                    )),
                Err(e) => e@ == LoadError::Format("logits 无法比较"@) && exists|
                    run: Run,
                    out: Seq<u32>,
                | #[trigger]
                    stuck(
                        ar,
                        *self,
                        prompt_ids(*self, prompt@),
                        temp,
                        max_tokens as int,
                        run,
                        out,
                    ) && !can_sample(run.logits.last(), temp),
            },
            r matches Ok(g) ==> g.gen_tokens <= max_tokens && (g.gen_tokens > 0 ==> g.prompt_tokens
                + g.gen_tokens <= self.n_ctx),
    {
        let ids: Vec<u32> = self.encode(prompt);
        assert(ids@ =~= prompt_ids(*self, prompt@));
        let mut kv: KVCache = KVCache::new(self);
        let ghost k0 = kv.k@;
        let ghost v0 = kv.v@;
        let mut logits: Vec<u32> = feed(ar, self, &mut kv, ids.as_slice());
        let mut out: Vec<u32> = Vec::new();
        let ghost mut run = choose|run: Run| #[trigger]
            is_run(ar, *self, 0, run) && run.fed == ids@ && starts_with(run, k0, v0) && ends_with(
                run,
                kv.k@,
                kv.v@,
            ) && logits@ == run.logits.last();
        let mut left: u32 = max_tokens;
        assert(ids@ + out@ =~= ids@);
        while left > 0
            invariant_except_break
                left + out@.len() == max_tokens,
            invariant
                ready(*self),
                is_fresh(*self, k0),
                is_fresh(*self, v0),
                ids@.len() > 0,
                kv.fits(*self),
                kv.pos == ids@.len() + out@.len(),
                starts_with(run, k0, v0),
                ends_with(run, kv.k@, kv.v@),
                continued(ar, *self, ids@, temp, max_tokens as int, run, out@),
                logits@ == run.logits.last(),
                logits@.len() == embedding(*self).len() as int / self.n_embd as int,
                logits@.len() > 0,
                ids@ == prompt_ids(*self, prompt@),
            ensures
                generated(ar, *self, ids@, temp, max_tokens as int, run, out@),
            decreases left,
        {
            if kv.pos >= self.n_ctx {
                break;
            }
            if !check_can_sample(logits.as_slice(), temp) {
                assert(stuck(ar, *self, ids@, temp, max_tokens as int, run, out@));
                return Err(not_comparable());
            }
            let next: u32 = sample_token(ar, logits.as_slice(), temp);
            if next == self.eos_id {
                break;
            }
            proof {
                lemma_sample_known(ar, *self, logits@, temp, next);
            }
            let ghost before = out@;
            let ghost run0 = run;
            out.push(next);
            logits = forward_token(ar, self, &mut kv, next);
            proof {
                run = lemma_token_joins(ar, *self, 0, run0, next, kv.k@, kv.v@, logits@);
                assert(run.fed =~= ids@ + out@);
                assert forall|j: int| 0 <= j < out@.len() implies sampled_token(
                    ar,
                    run.logits[ids@.len() + j - 1],
                    temp,
                    #[trigger] out@[j],
                ) && out@[j] != self.eos_id by {
                    if j < before.len() {
                        assert(out@[j] == before[j]);
                    }
                }
            }
            left -= 1;
        }
        let text: String = self.decode(out.as_slice());
        Ok(Generation { text, prompt_tokens: ids.len(), gen_tokens: out.len() })
    }
}

} // verus!
