//! A chat: the cache stays from turn to turn.

use crate::arith::Arith;
use crate::cache::{cache_fits, holds_layers, KVCache};
use crate::float::lemma_positive;
use crate::forward::{forward_token, knows, ready, room};
use crate::generation::{
    ends_with, feed, is_fresh, is_run, is_text_of, knows_all, lemma_sample_known, lemma_token_joins,
    starts_with, Run,
};
use crate::model::Model;
use crate::sampling::{can_sample, sample_token, sampled_token};
use crate::text::concat3;
use crate::tokenizer::text_ids;
use vstd::prelude::*;

verus! {

/// The pattern of 0.6, the temperature of a chat.
pub const CHAT_TEMPERATURE: u32 = 0x3f19_999a;

/// The number of tokens that a reply may have where nothing else is asked for.
pub const DEFAULT_REPLY_TOKENS: u64 = 120;

/// What the model is given for an input.
pub open spec fn turn_prompt(input: Seq<char>) -> Seq<char> {
    "Human: "@ + input + "\n\nBITNETAssistant: "@
}

/// The numbers of what the model is given for an input.
pub open spec fn turn_ids(m: Model, input: Seq<char>) -> Seq<u32> {
    text_ids(m.tokenizer.tokens(), m.tokenizer.ranks(), turn_prompt(input))
}

/// The numbers of what the model is given for an input.
pub fn encode_turn(model: &Model, input: &str) -> (ids: Vec<u32>)
    ensures
        ids@ == turn_ids(*model, input@),
{
    let prompt: String = concat3("Human: ", input, "\n\nBITNETAssistant: ");
    model.tokenizer.encode(prompt.as_str(), false, model.bos_id)
}

/// What a chat does next.
#[derive(Debug, Clone, Copy, PartialEq, Eq, Structural)]
pub enum ChatStep {
    /// The input has ended, and so does the chat.
    Stop,
    /// There was nothing in the line: the next one is asked for.
    AskAgain,
    /// The line is an input, which gets a reply.
    Turn,
}

/// What a chat does with a line of input that white space around it was taken off, or with the end
/// of the input.
pub fn next_step(line: Option<&str>) -> (s: ChatStep)
    ensures
        s == match line {
            None => ChatStep::Stop,
            Some(text) => if text@.len() == 0 {
                ChatStep::AskAgain
            } else {
                ChatStep::Turn
            },
        },
{
    match line {
        None => ChatStep::Stop,
        Some(text) => if text.is_empty() {
            ChatStep::AskAgain
        } else {
            ChatStep::Turn
        },
    }
}

/// A chat.
pub struct Chat {
    pub kv: KVCache,
    /// The tokens of all turns so far.
    pub history: Vec<u32>,
}

/// A reply.
pub struct Reply {
    pub tokens: Vec<u32>,
    pub text: String,
    /// The reply ended because the cache was full.
    pub context_full: bool,
}

/// A run feeds the tokens `ids` of the turn and then, once more, the last token so far and the
/// tokens of the reply, each of which is chosen by the logits of the token before it. None of them
/// ends the text, and they are no more than `max`.
pub open spec fn replied<A: Arith>(
    ar: &A,
    m: Model,
    start: int,
    ids: Seq<u32>,
    last: u32,
    max: int,
    run: Run,
    out: Seq<u32>,
) -> bool {
    &&& is_run(ar, m, start, run)
    &&& ids.len() + out.len() <= run.fed.len() <= ids.len() + out.len() + 1
    &&& run.fed == (ids + seq![last] + out).take(run.fed.len() as int)
    &&& run.fed.len() > ids.len() ==> start + run.fed.len() <= m.n_ctx
    &&& out.len() <= max
    &&& forall|j: int|
        0 <= j < out.len() ==> sampled_token(
            ar,
            run.logits[ids.len() + j],
            CHAT_TEMPERATURE,
            #[trigger] out[j],
        ) && out[j] != m.eos_id
}

/// The reply is over: it has as many tokens as it may, the cache is full, or the token that ends
/// the text was chosen.
pub open spec fn reply_over<A: Arith>(
    ar: &A,
    m: Model,
    start: int,
    ids: Seq<u32>,
    max: int,
    run: Run,
    out: Seq<u32>,
    full: bool,
) -> bool {
    if run.fed.len() == ids.len() + out.len() {
        &&& full == (out.len() < max)
        &&& full ==> start + run.fed.len() >= m.n_ctx
    } else {
        &&& !full
        &&& out.len() < max
        &&& sampled_token(ar, run.logits.last(), CHAT_TEMPERATURE, m.eos_id)
    }
}

impl Chat {
    /// The cache belongs to the model, and the model knows the tokens of the history.
    pub open spec fn fits(&self, m: Model) -> bool {
        &&& self.kv.fits(m)
        &&& knows_all(m, self.history@)
    }

    /// A chat before its first turn.
    pub fn new(model: &Model) -> (c: Chat)
        requires
            cache_fits(*model),
        ensures
            holds_layers(*model) ==> c.fits(*model),
            c.history@ == Seq::<u32>::empty(),
            c.kv.pos == 0,
            is_fresh(*model, c.kv.k@),
            is_fresh(*model, c.kv.v@),
    {
        Chat { kv: KVCache::new(model), history: Vec::new() }
    }

    /// One turn: takes the input through the model and generates a reply of up to `max` tokens.
    pub fn turn<A: Arith>(&mut self, ar: &A, model: &Model, input: &str, max: u64) -> (r: Reply)
        requires
            ready(*model),
            old(self).fits(*model),
            knows_all(*model, turn_ids(*model, input@)),
            room(*model, old(self).kv.pos as int, turn_ids(*model, input@).len() as int),
            old(self).history@.len() + turn_ids(*model, input@).len() > 0,
        ensures
            final(self).fits(*model),
            final(self).history@ == old(self).history@ + turn_ids(*model, input@) + r.tokens@,
            is_text_of(*model, r.tokens@, r.text@),
            r.tokens@.len() <= max,
            forall|j: int| 0 <= j < r.tokens@.len() ==> #[trigger] r.tokens@[j] != model.eos_id,
            r.context_full ==> r.tokens@.len() < max && final(self).kv.pos >= model.n_ctx,
            exists|run: Run| #[trigger]
                replied(
                    ar,
                    *model,
                    old(self).kv.pos as int,
                    turn_ids(*model, input@),
                    (old(self).history@ + turn_ids(*model, input@)).last(),
                    max as int,
                    run,
                    r.tokens@,
                ) && reply_over(
                    ar,
                    *model,
                    old(self).kv.pos as int,
                    turn_ids(*model, input@),
                    max as int,
                    run,
                    r.tokens@,
                    r.context_full,
                ) && starts_with(run, old(self).kv.k@, old(self).kv.v@) && ends_with(
                    run,
                    final(self).kv.k@,
                    final(self).kv.v@,
                ) && final(self).kv.pos == old(self).kv.pos + run.fed.len() && run.keys[0] == old(
                    self,
                ).kv.k@ && run.values[0] == old(self).kv.v@ && (forall|j: int|
                    0 <= j < r.tokens@.len() ==> sampled_token(
                        ar,
                        run.logits[turn_ids(*model, input@).len() + j],
                        CHAT_TEMPERATURE,
                        #[trigger] r.tokens@[j],
                    )) && (r.tokens@.len() < max && final(self).kv.pos < model.n_ctx
                    ==> !r.context_full && sampled_token(
                    ar,
                    run.logits.last(),
                    CHAT_TEMPERATURE,
                    model.eos_id,
                )) && (r.tokens@.len() < max && !r.context_full ==> sampled_token(
                    ar,
                    run.logits.last(),
                    CHAT_TEMPERATURE,
                    model.eos_id,
                )),
    {
        let ghost start = self.kv.pos as int;
        let ghost k0 = self.kv.k@;
        let ghost v0 = self.kv.v@;
        let ghost past = self.history@;
        let ids: Vec<u32> = encode_turn(model, input);
        feed(ar, model, &mut self.kv, ids.as_slice());
        let ghost mut run = choose|run: Run| #[trigger]
            is_run(ar, *model, start, run) && run.fed == ids@ && starts_with(run, k0, v0)
                && ends_with(run, self.kv.k@, self.kv.v@);
        self.history.extend_from_slice(ids.as_slice());
        proof {
            assert(self.history@ =~= past + ids@);
            assert forall|i: int| 0 <= i < self.history@.len() implies knows(
                *model,
                #[trigger] self.history@[i],
            ) by {
                if i < past.len() {
                    assert(self.history@[i] == past[i]);
                } else {
                    assert(self.history@[i] == ids@[i - past.len()]);
                }
            }
        }
        let mut last: u32 = self.history[self.history.len() - 1];
        let ghost last0 = last;
        assert(last0 == (past + turn_ids(*model, input@)).last());
        let mut out: Vec<u32> = Vec::new();
        let mut full: bool = false;
        let mut left: u64 = max;
        let ghost all = ids@ + seq![last0] + out@;
        assert(run.fed =~= all.take(ids@.len() as int));
        while left > 0
            invariant_except_break
                left + out@.len() == max,
                run.fed.len() == ids@.len() + out@.len(),
                !full,
                last == (ids@ + seq![last0] + out@).last(),
                knows(*model, last),
            invariant
                ready(*model),
                self.kv.fits(*model),
                self.history@ == past + ids@,
                self.kv.pos == start + run.fed.len(),
                starts_with(run, k0, v0),
                ends_with(run, self.kv.k@, self.kv.v@),
                replied(ar, *model, start, ids@, last0, max as int, run, out@),
                knows_all(*model, out@),
            ensures
                reply_over(ar, *model, start, ids@, max as int, run, out@, full),
            decreases left,
        {
            if self.kv.pos >= model.n_ctx {
                full = true;
                break;
            }
            let ghost run0 = run;
            let ghost before = out@;
            let logits: Vec<u32> = forward_token(ar, model, &mut self.kv, last);
            proof {
                run = lemma_token_joins(
                    ar,
                    *model,
                    start,
                    run0,
                    last,
                    self.kv.k@,
                    self.kv.v@,
                    logits@,
                );
                let all = ids@ + seq![last0] + out@;
                assert(run.fed =~= all.take(run.fed.len() as int));
                assert forall|j: int| 0 <= j < out@.len() implies sampled_token(
                    ar,
                    run.logits[ids@.len() + j],
                    CHAT_TEMPERATURE,
                    #[trigger] out@[j],
                ) && out@[j] != model.eos_id by {
                    assert(run.logits[ids@.len() + j] == run0.logits[ids@.len() + j]);
                }
                lemma_positive(CHAT_TEMPERATURE);
                assert(can_sample(logits@, CHAT_TEMPERATURE));
            }
            let next: u32 = sample_token(ar, logits.as_slice(), CHAT_TEMPERATURE);
            if next == model.eos_id {
                break;
            }
            proof {
                lemma_sample_known(ar, *model, logits@, CHAT_TEMPERATURE, next);
            }
            out.push(next);
            last = next;
            proof {
                let all = ids@ + seq![last0] + out@;
                let n = run.fed.len() as int;
                assert(all.take(n) =~= (ids@ + seq![last0] + before).take(n));
                assert forall|j: int| 0 <= j < out@.len() implies sampled_token(
                    ar,
                    run.logits[ids@.len() + j],
                    CHAT_TEMPERATURE,
                    #[trigger] out@[j],
                ) && out@[j] != model.eos_id by {
                    if j < before.len() {
                        assert(out@[j] == before[j]);
                    }
                }
            }
            left -= 1;
        }
        let text: String = model.decode(out.as_slice());
        self.history.extend_from_slice(out.as_slice());
        proof {
            assert(self.history@ =~= past + ids@ + out@);
            assert forall|i: int| 0 <= i < self.history@.len() implies knows(
                *model,
                #[trigger] self.history@[i],
            ) by {
                let n = past.len();
                if i < n {
                    assert(self.history@[i] == past[i]);
                } else if i < n + ids@.len() {
                    assert(self.history@[i] == ids@[i - n]);
                } else {
                    assert(self.history@[i] == out@[i - n - ids@.len()]);
                }
            }
        }
        let r: Reply = Reply { tokens: out, text, context_full: full };
        assert(replied(
            ar,
            *model,
            old(self).kv.pos as int,
            turn_ids(*model, input@),
            (old(self).history@ + turn_ids(*model, input@)).last(),
            max as int,
            run,
            r.tokens@,
        ));
        r
    }
}

} // verus!
