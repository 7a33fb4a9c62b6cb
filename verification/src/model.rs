//! The model: its dimensions, its weights and its tokenizer, out of a GGUF file.

use crate::bytes::spells;
use crate::gguf::{header_of, values_of, GgufFile, GgufMeta, MetaValue, RealBits};
use crate::loading::lemma_token_number_is_place;
use crate::merges::Pair;
use crate::text::{concat2, concat3, decimal, decimal_of, has_prefix, split_at_space};
use crate::tokenizer::{
    ids_bytes, pairs_of, rank_map, text_ids, tokens_of, vocab_map, BpeTokenizer, Token,
};
use crate::weights::{load_tensor, tensor_of, LoadError, Weights};
use std::collections::HashMap;
use vstd::prelude::*;

pub use crate::cache::KVCache;
pub use crate::forward::forward_token;
pub use crate::generation::Generation;
pub use crate::sampling::sample_token;
pub use crate::weights::{ModelError, TensorData};

verus! {

/// The pattern of 1e-5, which stands in for a missing number.
pub const DEFAULT_REAL: u32 = 0x3727_c5ac;

/// The number of positions that the cache has room for.
pub const CONTEXT: usize = 4096;

/// The weights of a layer.
pub struct Layer {
    pub attn_norm: Vec<u32>,
    pub ffn_norm: Vec<u32>,
    pub attn_sub_norm: Vec<u32>,
    pub ffn_sub_norm: Vec<u32>,
    pub q: TensorData,
    pub k: TensorData,
    pub v: TensorData,
    pub o: TensorData,
    pub gate: TensorData,
    pub up: TensorData,
    pub down: TensorData,
}

/// What the weights of a layer are.
pub struct LayerMeta {
    pub attn_norm: Seq<u32>,
    pub ffn_norm: Seq<u32>,
    pub attn_sub_norm: Seq<u32>,
    pub ffn_sub_norm: Seq<u32>,
    pub q: Weights,
    pub k: Weights,
    pub v: Weights,
    pub o: Weights,
    pub gate: Weights,
    pub up: Weights,
    pub down: Weights,
}

impl View for Layer {
    type V = LayerMeta;

    open spec fn view(&self) -> LayerMeta {
        LayerMeta {
            attn_norm: self.attn_norm@,
            ffn_norm: self.ffn_norm@,
            attn_sub_norm: self.attn_sub_norm@,
            ffn_sub_norm: self.ffn_sub_norm@,
            q: self.q@,
            k: self.k@,
            v: self.v@,
            o: self.o@,
            gate: self.gate@,
            up: self.up@,
            down: self.down@,
        }
    }
}

impl Layer {
    pub open spec fn wf(&self) -> bool {
        &&& self.q.wf()
        &&& self.k.wf()
        &&& self.v.wf()
        &&& self.o.wf()
        &&& self.gate.wf()
        &&& self.up.wf()
        &&& self.down.wf()
    }
}

/// A loaded model.
pub struct Model {
    pub n_embd: usize,
    pub n_layer: usize,
    pub n_head: usize,
    pub n_head_kv: usize,
    pub head_dim: usize,
    pub n_ff: usize,
    pub vocab_size: usize,
    pub rope_theta: RealBits,
    pub rope_freq_scale: RealBits,
    pub rms_eps: RealBits,
    pub n_ctx: usize,
    /// The token that starts a text.
    pub bos_id: u32,
    /// The token that ends a text.
    pub eos_id: u32,
    pub token_embd: TensorData,
    pub final_norm: Vec<u32>,
    pub layers: Vec<Layer>,
    pub tokenizer: BpeTokenizer,
}

/// What a model is.
pub struct ModelMeta {
    pub n_embd: usize,
    pub n_layer: usize,
    pub n_head: usize,
    pub n_head_kv: usize,
    pub head_dim: usize,
    pub n_ff: usize,
    pub vocab_size: usize,
    pub rope_theta: RealBits,
    pub rope_freq_scale: RealBits,
    pub rms_eps: RealBits,
    pub n_ctx: usize,
    pub bos_id: u32,
    pub eos_id: u32,
    pub token_embd: Weights,
    pub final_norm: Seq<u32>,
    pub layers: Seq<LayerMeta>,
    pub tokens: Seq<Token>,
    pub ranks: Map<Pair, u32>,
    pub specials: Map<Seq<char>, u32>,
    /// The number of tokens, the special ones included, modulo 2^32.
    pub size: u32,
}

pub open spec fn layers_of(layers: Seq<Layer>) -> Seq<LayerMeta> {
    Seq::new(layers.len(), |i: int| layers[i]@)
}

impl View for Model {
    type V = ModelMeta;

    open spec fn view(&self) -> ModelMeta {
        ModelMeta {
            n_embd: self.n_embd,
            n_layer: self.n_layer,
            n_head: self.n_head,
            n_head_kv: self.n_head_kv,
            head_dim: self.head_dim,
            n_ff: self.n_ff,
            vocab_size: self.vocab_size,
            rope_theta: self.rope_theta,
            rope_freq_scale: self.rope_freq_scale,
            rms_eps: self.rms_eps,
            n_ctx: self.n_ctx,
            bos_id: self.bos_id,
            eos_id: self.eos_id,
            token_embd: self.token_embd@,
            final_norm: self.final_norm@,
            layers: layers_of(self.layers@),
            tokens: self.tokenizer.tokens(),
            ranks: self.tokenizer.ranks(),
            specials: self.tokenizer.specials(),
            size: self.tokenizer.size(),
        }
    }
}

impl Model {
    /// Ternary weights come in whole blocks, and there are as many layers as the model says.
    pub open spec fn wf(&self) -> bool {
        &&& self.token_embd.wf()
        &&& self.layers@.len() == self.n_layer
        &&& forall|i: int| 0 <= i < self.layers@.len() ==> (#[trigger] self.layers@[i]).wf()
    }
}

/// The text of a key, empty where there is none.
pub open spec fn text_at(kv: Map<Seq<char>, MetaValue>, key: Seq<char>) -> Seq<char> {
    if kv.contains_key(key) {
        match kv[key] {
            MetaValue::Text(s) => s,
            _ => Seq::empty(),
        }
    } else {
        Seq::empty()
    }
}

/// The count of a key, 0 where there is none.
pub open spec fn count_at(kv: Map<Seq<char>, MetaValue>, key: Seq<char>) -> usize {
    if kv.contains_key(key) {
        match kv[key].to_u64() {
            Some(v) => v as usize,
            None => 0,
        }
    } else {
        0
    }
}

/// The number of a key, 1e-5 where there is none.
pub open spec fn real_at(kv: Map<Seq<char>, MetaValue>, key: Seq<char>) -> RealBits {
    if kv.contains_key(key) {
        match kv[key].to_real() {
            Some(v) => v,
            None => RealBits::Single(DEFAULT_REAL),
        }
    } else {
        RealBits::Single(DEFAULT_REAL)
    }
}

/// The token number of a key, `default` where there is none.
pub open spec fn id_at(kv: Map<Seq<char>, MetaValue>, key: Seq<char>, default: u32) -> u32 {
    if kv.contains_key(key) {
        match kv[key].to_u32() {
            Some(v) => v,
            None => default,
        }
    } else {
        default
    }
}

/// The array of a key, empty where there is none.
pub open spec fn items_of(kv: Map<Seq<char>, MetaValue>, key: Seq<char>) -> Seq<MetaValue> {
    if kv.contains_key(key) {
        match kv[key] {
            MetaValue::Array(items) => items,
            _ => Seq::empty(),
        }
    } else {
        Seq::empty()
    }
}

/// The texts of an array, each numbered by its place, modulo 2^32.
pub open spec fn numbered_texts(items: Seq<MetaValue>) -> Seq<Token>
    decreases items.len(),
{
    if items.len() == 0 {
        Seq::empty()
    } else {
        let before = numbered_texts(items.drop_last());
        match items.last() {
            MetaValue::Text(s) => before.push((s, ((items.len() - 1) % 0x1_0000_0000) as u32)),
            _ => before,
        }
    }
}

/// The text before the first space and the text behind it.
pub open spec fn split_pair(s: Seq<char>) -> Option<Pair> {
    match s.index_of_first(' ') {
        Some(i) => Some((s.take(i), s.skip(i + 1))),
        None => None,
    }
}

/// The pairs in the texts of an array.
pub open spec fn merge_pairs(items: Seq<MetaValue>) -> Seq<Pair>
    decreases items.len(),
{
    if items.len() == 0 {
        Seq::empty()
    } else {
        let before = merge_pairs(items.drop_last());
        match items.last() {
            MetaValue::Text(s) => match split_pair(s) {
                Some(pair) => before.push(pair),
                None => before,
            },
            _ => before,
        }
    }
}

/// A vector of numbers.
pub open spec fn norm_of(g: GgufMeta, data: Seq<u8>, name: Seq<char>) -> Result<
    Seq<u32>,
    LoadError,
> {
    match tensor_of(g, data, name) {
        Ok(Weights::Dense(v)) => Ok(v),
        Ok(_) => Err(LoadError::Format(name + " 不是 f32"@)),
        Err(e) => Err(e),
    }
}

/// What the names of the tensors of layer `i` start with.
pub open spec fn layer_prefix(i: int) -> Seq<char> {
    "blk."@ + decimal_of(i) + "."@
}

/// The weights of a layer, by the start of their names. The first tensor that cannot be loaded is
/// the one that is reported.
pub open spec fn layer_of(g: GgufMeta, data: Seq<u8>, prefix: Seq<char>) -> Result<
    LayerMeta,
    LoadError,
> {
    match norm_of(g, data, prefix + "attn_norm.weight"@) {
        Err(e) => Err(e),
        Ok(attn_norm) => match norm_of(g, data, prefix + "ffn_norm.weight"@) {
            Err(e) => Err(e),
            Ok(ffn_norm) => match norm_of(g, data, prefix + "attn_sub_norm.weight"@) {
                Err(e) => Err(e),
                Ok(attn_sub_norm) => match norm_of(g, data, prefix + "ffn_sub_norm.weight"@) {
                    Err(e) => Err(e),
                    Ok(ffn_sub_norm) => match tensor_of(g, data, prefix + "attn_q.weight"@) {
                        Err(e) => Err(e),
                        Ok(q) => match tensor_of(g, data, prefix + "attn_k.weight"@) {
                            Err(e) => Err(e),
                            Ok(k) => match tensor_of(g, data, prefix + "attn_v.weight"@) {
                                Err(e) => Err(e),
                                Ok(v) => match tensor_of(g, data, prefix + "attn_output.weight"@) {
                                    Err(e) => Err(e),
                                    Ok(o) => match tensor_of(g, data, prefix + "ffn_gate.weight"@) {
                                        Err(e) => Err(e),
                                        Ok(gate) => match tensor_of(g, data, prefix + "ffn_up.weight"@) {
                                            Err(e) => Err(e),
                                            Ok(up) => match tensor_of(g, data, prefix + "ffn_down.weight"@) {
                                                Err(e) => Err(e),
                                                Ok(down) => Ok(
                                                    LayerMeta {
                                                        attn_norm,
                                                        ffn_norm,
                                                        attn_sub_norm,
                                                        ffn_sub_norm,
                                                        q,
                                                        k,
                                                        v,
                                                        o,
                                                        gate,
                                                        up,
                                                        down,
                                                    },
                                                ),
                                            },
                                        },
                                    },
                                },
                            },
                        },
                    },
                },
            },
        },
    }
}

/// The layers from `i` up to `n`, after those in `before`.
pub open spec fn layers_from(
    g: GgufMeta,
    data: Seq<u8>,
    n: int,
    i: int,
    before: Seq<LayerMeta>,
) -> Result<Seq<LayerMeta>, LoadError>
    decreases n - i,
{
    if i >= n {
        Ok(before)
    } else {
        match layer_of(g, data, layer_prefix(i)) {
            Ok(layer) => layers_from(g, data, n, i + 1, before.push(layer)),
            Err(e) => Err(e),
        }
    }
}

/// The dimension of a head: as the metadata say, else an equal share of the embedding.
pub open spec fn head_dim_of(kv: Map<Seq<char>, MetaValue>) -> int {
    let dim = count_at(kv, "bitnet-b1.58.rope.dimension_count"@);
    if dim == 0 {
        count_at(kv, "bitnet-b1.58.embedding_length"@) as int / count_at(
            kv,
            "bitnet-b1.58.attention.head_count"@,
        ) as int
    } else {
        dim as int
    }
}

/// Why the metadata do not describe a model, if they do not.
pub open spec fn metadata_error(kv: Map<Seq<char>, MetaValue>) -> Option<Seq<char>> {
    let arch = text_at(kv, "general.architecture"@);
    if !"bitnet"@.is_prefix_of(arch) && arch.len() > 0 {
        Some("不是 BitNet 架构的 gguf（general.architecture = "@ + arch + "）"@)
    } else if count_at(kv, "bitnet-b1.58.block_count"@) == 0 || count_at(
        kv,
        "bitnet-b1.58.embedding_length"@,
    ) == 0 {
        Some("缺少 bitnet-b1.58.* 结构元数据（block_count / embedding_length）"@)
    } else if count_at(kv, "bitnet-b1.58.rope.dimension_count"@) == 0 && count_at(
        kv,
        "bitnet-b1.58.attention.head_count"@,
    ) == 0 {
        Some("缺少 bitnet-b1.58.* 结构元数据（attention.head_count）"@)
    } else {
        None
    }
}

/// The model in a file with the bytes `data`.
pub open spec fn model_of(data: Seq<u8>) -> Result<ModelMeta, LoadError> {
    match header_of(data) {
        Err(e) => Err(LoadError::Io(e)),
        Ok(g) => match metadata_error(g.kv) {
            Some(m) => Err(LoadError::Format(m)),
            None => match tensor_of(g, data, "token_embd.weight"@) {
                Err(e) => Err(e),
                Ok(token_embd) => match tensor_of(g, data, "output_norm.weight"@) {
                    Err(e) => Err(e),
                    Ok(Weights::Ternary { .. }) => Err(LoadError::Format("output_norm 不是 f32"@)),
                    Ok(Weights::Dense(final_norm)) => match layers_from(
                        g,
                        data,
                        count_at(g.kv, "bitnet-b1.58.block_count"@) as int,
                        0,
                        Seq::empty(),
                    ) {
                        Err(e) => Err(e),
                        Ok(layers) => Ok(assembled(g.kv, token_embd, final_norm, layers)),
                    },
                },
            },
        },
    }
}

/// The model that metadata and weights make up.
pub open spec fn assembled(
    kv: Map<Seq<char>, MetaValue>,
    token_embd: Weights,
    final_norm: Seq<u32>,
    layers: Seq<LayerMeta>,
) -> ModelMeta {
    ModelMeta {
        n_embd: count_at(kv, "bitnet-b1.58.embedding_length"@),
        n_layer: count_at(kv, "bitnet-b1.58.block_count"@),
        n_head: count_at(kv, "bitnet-b1.58.attention.head_count"@),
        n_head_kv: count_at(kv, "bitnet-b1.58.attention.head_count_kv"@),
        head_dim: head_dim_of(kv) as usize,
        n_ff: count_at(kv, "bitnet-b1.58.feed_forward_length"@),
        vocab_size: count_at(kv, "bitnet-b1.58.vocab_size"@),
        rope_theta: real_at(kv, "bitnet-b1.58.rope.freq_base"@),
        rope_freq_scale: real_at(kv, "bitnet-b1.58.rope.frequency_scale"@),
        rms_eps: real_at(kv, "bitnet-b1.58.attention.layer_norm_rms_epsilon"@),
        n_ctx: CONTEXT,
        bos_id: id_at(kv, "tokenizer.ggml.bos_token_id"@, 128000),
        eos_id: id_at(kv, "tokenizer.ggml.eos_token_id"@, 128001),
        token_embd,
        final_norm,
        layers,
        tokens: numbered_texts(items_of(kv, "tokenizer.ggml.tokens"@)),
        ranks: rank_map(merge_pairs(items_of(kv, "tokenizer.ggml.merges"@))),
        specials: vocab_map(numbered_texts(items_of(kv, "tokenizer.ggml.special_tokens"@))),
        size: ((numbered_texts(items_of(kv, "tokenizer.ggml.tokens"@)).len() + vocab_map(
            numbered_texts(items_of(kv, "tokenizer.ggml.special_tokens"@)),
        ).len()) as int % 0x1_0000_0000) as u32,
    }
}

fn get_text(g: &GgufFile, key: &str) -> (s: String)
    requires
        g.wf(),
    ensures
        s@ == text_at(g@.kv, key@),
{
    match g.get(key) {
        Some(v) => match v.as_str() {
            Some(s) => s.to_owned(),
            None => String::new(),
        },
        None => String::new(),
    }
}

fn get_count(g: &GgufFile, key: &str) -> (n: usize)
    requires
        g.wf(),
    ensures
        n == count_at(g@.kv, key@),
{
    match g.get(key) {
        Some(v) => match v.as_u64() {
            Some(n) => n as usize,
            None => 0,
        },
        None => 0,
    }
}

fn get_real(g: &GgufFile, key: &str) -> (r: RealBits)
    requires
        g.wf(),
    ensures
        r == real_at(g@.kv, key@),
{
    match g.get(key) {
        Some(v) => match v.as_f32() {
            Some(r) => r,
            None => RealBits::Single(DEFAULT_REAL),
        },
        None => RealBits::Single(DEFAULT_REAL),
    }
}

fn get_id(g: &GgufFile, key: &str, default: u32) -> (r: u32)
    requires
        g.wf(),
    ensures
        r == id_at(g@.kv, key@, default),
{
    match g.get(key) {
        Some(v) => match v.as_u32() {
            Some(r) => r,
            None => default,
        },
        None => default,
    }
}

fn get_numbered_texts(g: &GgufFile, key: &str) -> (out: Vec<(String, u32)>)
    requires
        g.wf(),
    ensures
        tokens_of(out@) == numbered_texts(items_of(g@.kv, key@)),
{
    let mut out: Vec<(String, u32)> = Vec::new();
    let ghost all = items_of(g@.kv, key@);
    assert(tokens_of(out@) =~= Seq::<Token>::empty());
    if let Some(v) = g.get(key) {
        if let Some(items) = v.as_array() {
            let mut i: usize = 0;
            assert(all.take(0) =~= Seq::<MetaValue>::empty());
            while i < items.len()
                invariant
                    i <= items@.len(),
                    values_of(items@) == all,
                    tokens_of(out@) == numbered_texts(all.take(i as int)),
                decreases items@.len() - i,
            {
                let ghost before = tokens_of(out@);
                proof {
                    let next = all.take(i + 1);
                    assert(next.drop_last() =~= all.take(i as int));
                    assert(next.last() == items@[i as int]@);
                }
                if let Some(s) = items[i].as_str() {
                    let number: u32 = (i as u64 % 0x1_0000_0000) as u32;
                    out.push((s.to_owned(), number));
                    assert(tokens_of(out@) =~= before.push((s@, number)));
                }
                i += 1;
            }
            assert(all.take(i as int) =~= all);
            return out;
        }
    }
    out
}

pub(crate) proof fn lemma_split_pair(s: Seq<char>, a: Seq<char>, b: Seq<char>)
    requires
        s == a + seq![' '] + b,
        !a.contains(' '),
    ensures
        split_pair(s) == Some((a, b)),
{
    s.index_of_first_ensures(' ');
    let n = a.len() as int;
    assert(s[n] == ' ');
    assert(s.contains(' '));
    let i = s.index_of_first(' ')->0;
    if i < n {
        assert(a[i] == s[i]);
        assert(a.contains(' '));
    }
    assert(i == n);
    assert(s.take(i) =~= a);
    assert(s.skip(i + 1) =~= b);
}

fn get_merges(g: &GgufFile, key: &str) -> (out: Vec<(String, String)>)
    requires
        g.wf(),
    ensures
        pairs_of(out@) == merge_pairs(items_of(g@.kv, key@)),
{
    let mut out: Vec<(String, String)> = Vec::new();
    let ghost all = items_of(g@.kv, key@);
    assert(pairs_of(out@) =~= Seq::<Pair>::empty());
    if let Some(v) = g.get(key) {
        if let Some(items) = v.as_array() {
            let mut i: usize = 0;
            assert(all.take(0) =~= Seq::<MetaValue>::empty());
            while i < items.len()
                invariant
                    i <= items@.len(),
                    values_of(items@) == all,
                    pairs_of(out@) == merge_pairs(all.take(i as int)),
                decreases items@.len() - i,
            {
                let ghost before = pairs_of(out@);
                proof {
                    let next = all.take(i + 1);
                    assert(next.drop_last() =~= all.take(i as int));
                    assert(next.last() == items@[i as int]@);
                }
                if let Some(s) = items[i].as_str() {
                    proof {
                        s@.index_of_first_ensures(' ');
                    }
                    if let Some((a, b)) = split_at_space(s) {
                        proof {
                            lemma_split_pair(s@, a@, b@);
                        }
                        out.push((a.to_owned(), b.to_owned()));
                        assert(pairs_of(out@) =~= before.push((a@, b@)));
                    }
                }
                i += 1;
            }
            assert(all.take(i as int) =~= all);
            return out;
        }
    }
    out
}

fn load_norm(g: &GgufFile, data: &[u8], name: &str) -> (r: Result<Vec<u32>, ModelError>)
    ensures
        match r {
            Ok(v) => norm_of(g@, data@, name@) == Ok::<Seq<u32>, LoadError>(v@),
            Err(e) => norm_of(g@, data@, name@) == Err::<Seq<u32>, LoadError>(e@),
        },
{
    match load_tensor(g, data, name) {
        Ok(TensorData::F32(v)) => Ok(v),
        Ok(TensorData::I2(_)) => Err(ModelError::Format(concat2(name, " 不是 f32"))),
        Err(e) => Err(e),
    }
}

fn load_layer(g: &GgufFile, data: &[u8], p: &str) -> (r: Result<Layer, ModelError>)
    ensures
        match r {
            Ok(layer) => layer.wf() && layer_of(g@, data@, p@) == Ok::<LayerMeta, LoadError>(
                layer@,
            ),
            Err(e) => layer_of(g@, data@, p@) == Err::<LayerMeta, LoadError>(e@),
        },
{
    let attn_norm: Vec<u32> = match load_norm(g, data, concat2(p, "attn_norm.weight").as_str()) {
        Ok(ok) => ok,
        Err(e) => {
            return Err(e);
        },
    };
    let ffn_norm: Vec<u32> = match load_norm(g, data, concat2(p, "ffn_norm.weight").as_str()) {
        Ok(ok) => ok,
        Err(e) => {
            return Err(e);
        },
    };
    let attn_sub_norm: Vec<u32> = match load_norm(g, data, concat2(p, "attn_sub_norm.weight").as_str()) {
        Ok(ok) => ok,
        Err(e) => {
            return Err(e);
        },
    };
    let ffn_sub_norm: Vec<u32> = match load_norm(g, data, concat2(p, "ffn_sub_norm.weight").as_str()) {
        Ok(ok) => ok,
        Err(e) => {
            return Err(e);
        },
    };
    let q: TensorData = match load_tensor(g, data, concat2(p, "attn_q.weight").as_str()) {
        Ok(ok) => ok,
        Err(e) => {
            return Err(e);
        },
    };
    let k: TensorData = match load_tensor(g, data, concat2(p, "attn_k.weight").as_str()) {
        Ok(ok) => ok,
        Err(e) => {
            return Err(e);
        },
    };
    let v: TensorData = match load_tensor(g, data, concat2(p, "attn_v.weight").as_str()) {
        Ok(ok) => ok,
        Err(e) => {
            return Err(e);
        },
    };
    let o: TensorData = match load_tensor(g, data, concat2(p, "attn_output.weight").as_str()) {
        Ok(ok) => ok,
        Err(e) => {
            return Err(e);
        },
    };
    let gate: TensorData = match load_tensor(g, data, concat2(p, "ffn_gate.weight").as_str()) {
        Ok(ok) => ok,
        Err(e) => {
            return Err(e);
        },
    };
    let up: TensorData = match load_tensor(g, data, concat2(p, "ffn_up.weight").as_str()) {
        Ok(ok) => ok,
        Err(e) => {
            return Err(e);
        },
    };
    let down: TensorData = match load_tensor(g, data, concat2(p, "ffn_down.weight").as_str()) {
        Ok(ok) => ok,
        Err(e) => {
            return Err(e);
        },
    };
    Ok(Layer {
        attn_norm,
        ffn_norm,
        attn_sub_norm,
        ffn_sub_norm,
        q,
        k,
        v,
        o,
        gate,
        up,
        down,
    })
}

fn load_layers(g: &GgufFile, data: &[u8], n: usize) -> (r: Result<Vec<Layer>, ModelError>)
    ensures
        match r {
            Ok(layers) => layers_from(g@, data@, n as int, 0, Seq::empty()) == Ok::<
                Seq<LayerMeta>,
                LoadError,
            >(layers_of(layers@)) && layers@.len() == n && forall|i: int|
                0 <= i < layers@.len() ==> (#[trigger] layers@[i]).wf(),
            Err(e) => layers_from(g@, data@, n as int, 0, Seq::empty()) == Err::<
                Seq<LayerMeta>,
                LoadError,
            >(e@),
        },
{
    let mut layers: Vec<Layer> = Vec::new();
    let mut i: usize = 0;
    assert(layers_of(layers@) =~= Seq::<LayerMeta>::empty());
    while i < n
        invariant
            i <= n,
            layers@.len() == i,
            forall|j: int| 0 <= j < layers@.len() ==> (#[trigger] layers@[j]).wf(),
            layers_from(g@, data@, n as int, 0, Seq::empty()) == layers_from(
                g@,
                data@,
                n as int,
                i as int,
                layers_of(layers@),
            ),
        decreases n - i,
    {
        let p: String = concat3("blk.", decimal(i as u64).as_str(), ".");
        match load_layer(g, data, p.as_str()) {
            Ok(layer) => {
                let ghost before = layers_of(layers@);
                let ghost m = layer@;
                layers.push(layer);
                assert(layers_of(layers@) =~= before.push(m));
            },
            Err(e) => {
                return Err(e);
            },
        }
        i += 1;
    }
    Ok(layers)
}

impl Model {
    /// Loads a model out of the bytes of a GGUF file.
    pub fn load(data: &[u8]) -> (r: Result<Model, ModelError>)
        ensures
            match r {
                Ok(m) => m.wf() && model_of(data@) == Ok::<ModelMeta, LoadError>(m@),
                Err(e) => model_of(data@) == Err::<ModelMeta, LoadError>(e@),
            },
            r matches Ok(m) ==> header_of(data@) is Ok && {
                let kv = header_of(data@)->Ok_0.kv;
                kv.contains_key("tokenizer.ggml.tokens"@) && kv["tokenizer.ggml.tokens"@] is Array
                    ==> {
                    let items = kv["tokenizer.ggml.tokens"@]->Array_0;
                    forall|i: int|
                        0 <= i < items.len() && i < 0x1_0000_0000 && (#[trigger] items[i]) is Text
                            ==> m.tokenizer.tokens().contains((items[i]->Text_0, i as u32))
                }
            },
    {
        let g: GgufFile = match GgufFile::open(data) {
            Ok(g) => g,
            Err(e) => {
                return Err(ModelError::Io(e));
            },
        };
        let arch: String = get_text(&g, "general.architecture");
        if !has_prefix(arch.as_str(), "bitnet") && !arch.as_str().is_empty() {
            return Err(
                ModelError::Format(
                    concat3(
                        "不是 BitNet 架构的 gguf（general.architecture = ",
                        arch.as_str(),
                        "）",
                    ),
                ),
            );
        }
        let n_layer: usize = get_count(&g, "bitnet-b1.58.block_count");
        let n_embd: usize = get_count(&g, "bitnet-b1.58.embedding_length");
        let n_head: usize = get_count(&g, "bitnet-b1.58.attention.head_count");
        let n_head_kv: usize = get_count(&g, "bitnet-b1.58.attention.head_count_kv");
        let rope_dim: usize = get_count(&g, "bitnet-b1.58.rope.dimension_count");
        if n_layer == 0 || n_embd == 0 {
            return Err(
                ModelError::Format(
                    "缺少 bitnet-b1.58.* 结构元数据（block_count / embedding_length）".to_owned(),
                ),
            );
        }
        if rope_dim == 0 && n_head == 0 {
            return Err(
                ModelError::Format(
                    "缺少 bitnet-b1.58.* 结构元数据（attention.head_count）".to_owned(),
                ),
            );
        }
        let head_dim: usize = if rope_dim == 0 {
            n_embd / n_head
        } else {
            rope_dim
        };
        let n_ff: usize = get_count(&g, "bitnet-b1.58.feed_forward_length");
        let vocab_size: usize = get_count(&g, "bitnet-b1.58.vocab_size");
        let rope_theta: RealBits = get_real(&g, "bitnet-b1.58.rope.freq_base");
        let rope_freq_scale: RealBits = get_real(&g, "bitnet-b1.58.rope.frequency_scale");
        let rms_eps: RealBits = get_real(&g, "bitnet-b1.58.attention.layer_norm_rms_epsilon");
        let token_embd: TensorData = match load_tensor(&g, data, "token_embd.weight") {
            Ok(t) => t,
            Err(e) => {
                return Err(e);
            },
        };
        let final_norm: Vec<u32> = match load_tensor(&g, data, "output_norm.weight") {
            Ok(TensorData::F32(v)) => v,
            Ok(TensorData::I2(_)) => {
                return Err(ModelError::Format("output_norm 不是 f32".to_owned()));
            },
            Err(e) => {
                return Err(e);
            },
        };
        let layers: Vec<Layer> = match load_layers(&g, data, n_layer) {
            Ok(layers) => layers,
            Err(e) => {
                return Err(e);
            },
        };
        let tokens: Vec<(String, u32)> = get_numbered_texts(&g, "tokenizer.ggml.tokens");
        let merges: Vec<(String, String)> = get_merges(&g, "tokenizer.ggml.merges");
        let special: Vec<(String, u32)> = get_numbered_texts(
            &g,
            "tokenizer.ggml.special_tokens",
        );
        let bos_id: u32 = get_id(&g, "tokenizer.ggml.bos_token_id", 128000);
        let eos_id: u32 = get_id(&g, "tokenizer.ggml.eos_token_id", 128001);
        let tokenizer: BpeTokenizer = BpeTokenizer::new(tokens, merges, special);
        proof {
            let items = items_of(g@.kv, "tokenizer.ggml.tokens"@);
            assert forall|i: int|
                0 <= i < items.len() && i < 0x1_0000_0000 && (#[trigger] items[i])
                    is Text implies tokenizer.tokens().contains(
                (items[i]->Text_0, i as u32),
            ) by {
                lemma_token_number_is_place(items, i);
            }
        }
        let m = Model {
            n_embd,
            n_layer,
            n_head,
            n_head_kv,
            head_dim,
            n_ff,
            vocab_size,
            rope_theta,
            rope_freq_scale,
            rms_eps,
            n_ctx: CONTEXT,
            bos_id,
            eos_id,
            token_embd,
            final_norm,
            layers,
            tokenizer,
        };
        Ok(m)
    }

    /// The numbers of a text, after the token that starts a text.
    pub fn encode(&self, text: &str) -> (ids: Vec<u32>)
        ensures
            ids@ == seq![self.bos_id] + text_ids(
                self.tokenizer.tokens(),
                self.tokenizer.ranks(),
                text@,
            ),
    {
        self.tokenizer.encode(text, true, self.bos_id)
    }

    /// The text of numbers.
    pub fn decode(&self, ids: &[u32]) -> (text: String)
        ensures
            spells(ids_bytes(self.tokenizer.tokens(), Map::empty(), ids@), text@),
    {
        let none: HashMap<u32, String> = HashMap::new();
        assert(none@ =~= Map::<u32, String>::empty());
        self.tokenizer.decode(ids, &none)
    }
}

} // verus!
