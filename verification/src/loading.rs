//! What a file says of the model that is loaded from it: where each number, each tensor and each
//! token comes from.

use crate::gguf::{header_of, GgufError, GgufMeta, MetaValue, RealBits, TensorMeta};
use crate::merge_order::lemma_rank_is_place;
use crate::merges::Pair;
use crate::model::{
    assembled, count_at, id_at, layer_of, layer_prefix, layers_from, lemma_split_pair, merge_pairs,
    metadata_error, model_of, numbered_texts, real_at, text_at, LayerMeta, ModelMeta,
};
use crate::text::decimal_of;
use crate::tokenizer::vocab_map;
use crate::weights::{find_from, tensor_of, LoadError, Weights};
use vstd::prelude::*;

verus! {

/// The number of a token is the place of its text in the array: every text that stands in the
/// array has an entry with its place, every entry comes from a place in the array, and no two
/// entries have the same number.
pub proof fn lemma_token_numbers_are_places(items: Seq<MetaValue>)
    requires
        items.len() <= 0x1_0000_0000,
    ensures
        forall|i: int|
            0 <= i < items.len() && (#[trigger] items[i]) is Text ==> numbered_texts(
                items,
            ).contains((items[i]->Text_0, i as u32)),
        forall|k: int|
            0 <= k < numbered_texts(items).len() ==> {
                let (text, number) = #[trigger] numbered_texts(items)[k];
                number < items.len() && items[number as int] == MetaValue::Text(text)
            },
        forall|j: int, k: int|
            0 <= j < k < numbered_texts(items).len() ==> (#[trigger] numbered_texts(items)[j]).1
                < (#[trigger] numbered_texts(items)[k]).1,
    decreases items.len(),
{
    if items.len() > 0 {
        let rest = items.drop_last();
        let n = items.len() - 1;
        lemma_token_numbers_are_places(rest);
        let before = numbered_texts(rest);
        let all = numbered_texts(items);
        assert forall|i: int| 0 <= i < items.len() && (#[trigger] items[i])
            is Text implies all.contains((items[i]->Text_0, i as u32)) by {
            if i < n {
                assert(rest[i] == items[i]);
                let e = (items[i]->Text_0, i as u32);
                assert(before.contains(e));
                let k = choose|k: int| 0 <= k < before.len() && before[k] == e;
                assert(all[k] == e);
            } else {
                assert(all[all.len() - 1] == (items[i]->Text_0, i as u32));
            }
        }
        assert forall|k: int| 0 <= k < all.len() implies {
            let (text, number) = #[trigger] all[k];
            number < items.len() && items[number as int] == MetaValue::Text(text)
        } by {
            if k < before.len() {
                assert(all[k] == before[k]);
                assert(rest[before[k].1 as int] == items[before[k].1 as int]);
            }
        }
        assert forall|j: int, k: int| 0 <= j < k < all.len() implies (#[trigger] all[j]).1
            < (#[trigger] all[k]).1 by {
            assert(all[j] == before[j]);
            assert(before[j].1 < rest.len());
            if k < before.len() {
                assert(all[k] == before[k]);
            }
        }
    }
}

/// Without a bound on the array: a text in one of the first 2^32 places has an entry with its
/// place.
pub proof fn lemma_token_number_is_place(items: Seq<MetaValue>, i: int)
    requires
        0 <= i < items.len(),
        i < 0x1_0000_0000,
        items[i] is Text,
    ensures
        numbered_texts(items).contains((items[i]->Text_0, i as u32)),
    decreases items.len(),
{
    let all = numbered_texts(items);
    let e = (items[i]->Text_0, i as u32);
    if i < items.len() - 1 {
        let rest = items.drop_last();
        assert(rest[i] == items[i]);
        lemma_token_number_is_place(rest, i);
        let before = numbered_texts(rest);
        let k = choose|k: int| 0 <= k < before.len() && before[k] == e;
        assert(all[k] == e);
    } else {
        assert(all[all.len() - 1] == e);
    }
}

/// The merges stand in the order of the array, each as the text before and the text behind the
/// first space.
pub proof fn lemma_merges_keep_their_order(items: Seq<MetaValue>, pairs: Seq<Pair>)
    requires
        items.len() == pairs.len(),
        forall|i: int|
            0 <= i < items.len() ==> (#[trigger] items[i]) == MetaValue::Text(
                pairs[i].0 + seq![' '] + pairs[i].1,
            ) && !pairs[i].0.contains(' '),
    ensures
        merge_pairs(items) == pairs,
    decreases items.len(),
{
    if items.len() == 0 {
        assert(merge_pairs(items) =~= pairs);
    } else {
        let n = items.len() - 1;
        let rest = items.drop_last();
        assert forall|i: int| 0 <= i < rest.len() implies (#[trigger] rest[i]) == MetaValue::Text(
            pairs.drop_last()[i].0 + seq![' '] + pairs.drop_last()[i].1,
        ) && !pairs.drop_last()[i].0.contains(' ') by {
            assert(rest[i] == items[i]);
        }
        lemma_merges_keep_their_order(rest, pairs.drop_last());
        assert(items[n] == items.last());
        let (a, b) = pairs[n];
        lemma_split_pair(a + seq![' '] + b, a, b);
        assert(merge_pairs(items) =~= pairs);
    }
}

/// What is no text, or a text without a space, is no merge, wherever it stands in the array.
pub proof fn lemma_what_is_no_merge(a: Seq<MetaValue>, item: MetaValue, b: Seq<MetaValue>)
    requires
        item matches MetaValue::Text(s) ==> !s.contains(' '),
    ensures
        merge_pairs(a.push(item) + b) == merge_pairs(a + b),
    decreases b.len(),
{
    let with = a.push(item) + b;
    let without = a + b;
    if b.len() == 0 {
        assert(with =~= a.push(item));
        assert(without =~= a);
        assert(a.push(item).drop_last() =~= a);
        if let MetaValue::Text(s) = item {
            s.index_of_first_ensures(' ');
        }
    } else {
        lemma_what_is_no_merge(a, item, b.drop_last());
        assert(with.drop_last() =~= a.push(item) + b.drop_last());
        assert(without.drop_last() =~= a + b.drop_last());
    }
}

/// The tokenizer of a loaded model. Each token has the place of its text in
/// `tokenizer.ggml.tokens` as its number, each special token its place in
/// `tokenizer.ggml.special_tokens`, and the rank of a pair is its place in
/// `tokenizer.ggml.merges`.
pub proof fn lemma_tokenizer_of_a_file(
    data: Seq<u8>,
    g: GgufMeta,
    m: ModelMeta,
    items: Seq<MetaValue>,
    pairs: Seq<Pair>,
    i: int,
)
    requires
        header_of(data) == Ok::<_, GgufError>(g),
        model_of(data) == Ok::<_, LoadError>(m),
        0 <= i < items.len(),
        i < 0x1_0000_0000,
    ensures
        g.kv.contains_key("tokenizer.ggml.tokens"@) && g.kv["tokenizer.ggml.tokens"@]
            == MetaValue::Array(items) && items[i] is Text ==> m.tokens.contains(
            (items[i]->Text_0, i as u32),
        ),
        g.kv.contains_key("tokenizer.ggml.special_tokens"@)
            && g.kv["tokenizer.ggml.special_tokens"@] == MetaValue::Array(items) && items[i] is Text
            && (forall|j: int|
            i < j < items.len() ==> #[trigger] items[j] != items[i]) ==> m.specials.contains_key(
            items[i]->Text_0,
        ) && m.specials[items[i]->Text_0] == i,
        g.kv.contains_key("tokenizer.ggml.merges"@) && g.kv["tokenizer.ggml.merges"@]
            == MetaValue::Array(items) && items.len() == pairs.len() && (forall|j: int|
            0 <= j < items.len() ==> (#[trigger] items[j]) == MetaValue::Text(
                pairs[j].0 + seq![' '] + pairs[j].1,
            ) && !pairs[j].0.contains(' ')) && (forall|j: int|
            i < j < items.len() ==> #[trigger] pairs[j] != pairs[i]) ==> m.ranks.contains_key(
            pairs[i],
        ) && m.ranks[pairs[i]] == i,
{
    if items[i] is Text {
        lemma_token_number_is_place(items, i);
        if forall|j: int| i < j < items.len() ==> #[trigger] items[j] != items[i] {
            lemma_last_text_counts(items, i);
        }
    }
    if items.len() == pairs.len() && (forall|j: int|
        0 <= j < items.len() ==> (#[trigger] items[j]) == MetaValue::Text(
            pairs[j].0 + seq![' '] + pairs[j].1,
        ) && !pairs[j].0.contains(' ')) {
        lemma_merges_keep_their_order(items, pairs);
        lemma_rank_is_place(pairs);
    }
}

/// Of equal texts in an array, the last one counts.
proof fn lemma_last_text_counts(items: Seq<MetaValue>, i: int)
    requires
        0 <= i < items.len(),
        i < 0x1_0000_0000,
        items[i] is Text,
        forall|j: int| i < j < items.len() ==> #[trigger] items[j] != items[i],
    ensures
        vocab_map(numbered_texts(items)).contains_key(items[i]->Text_0),
        vocab_map(numbered_texts(items))[items[i]->Text_0] == i,
    decreases items.len(),
{
    let all = numbered_texts(items);
    let rest = items.drop_last();
    if i < items.len() - 1 {
        assert(items[items.len() - 1] != items[i]);
        assert(rest[i] == items[i]);
        assert forall|j: int| i < j < rest.len() implies #[trigger] rest[j] != rest[i] by {
            assert(items[j] != items[i]);
        }
        lemma_last_text_counts(rest, i);
        if items.last() is Text {
            assert(all.drop_last() =~= numbered_texts(rest));
        }
    } else {
        assert(all.drop_last() =~= numbered_texts(rest));
    }
}

/// `n` is the count that the metadata give for a key: an integer of 32 or 64 bits as it is, and 0
/// for anything else.
pub open spec fn gives_count(kv: Map<Seq<char>, MetaValue>, key: Seq<char>, n: usize) -> bool {
    if kv.contains_key(key) {
        match kv[key] {
            MetaValue::U32(v) => n == v,
            MetaValue::U64(v) => v <= usize::MAX ==> n == v,
            MetaValue::I32(v) => v >= 0 ==> n == v,
            MetaValue::I64(v) => 0 <= v <= usize::MAX ==> n == v,
            _ => n == 0,
        }
    } else {
        n == 0
    }
}

/// `r` is the number that the metadata give for a key: one of either width as it is, and 1e-5 for
/// anything else.
pub open spec fn gives_real(kv: Map<Seq<char>, MetaValue>, key: Seq<char>, r: RealBits) -> bool {
    if kv.contains_key(key) {
        match kv[key] {
            MetaValue::F32(v) => r == RealBits::Single(v),
            MetaValue::F64(v) => r == RealBits::Double(v),
            _ => r == RealBits::Single(0x3727_c5ac),
        }
    } else {
        r == RealBits::Single(0x3727_c5ac)
    }
}

/// `id` is the token that the metadata give for a key: an integer of 32 or 64 bits as it is, and
/// `default` for anything else.
pub open spec fn gives_id(
    kv: Map<Seq<char>, MetaValue>,
    key: Seq<char>,
    default: u32,
    id: u32,
) -> bool {
    if kv.contains_key(key) {
        match kv[key] {
            MetaValue::U32(v) => id == v,
            MetaValue::U64(v) => v <= u32::MAX ==> id == v,
            MetaValue::I32(v) => v >= 0 ==> id == v,
            MetaValue::I64(v) => 0 <= v <= u32::MAX ==> id == v,
            _ => id == default,
        }
    } else {
        id == default
    }
}

/// The dimensions and numbers of a loaded model, key by key. A head has the dimension that the
/// metadata give, and else as large a share of the embedding as all heads can have.
pub proof fn lemma_metadata_of_a_file(data: Seq<u8>, g: GgufMeta, m: ModelMeta)
    requires
        header_of(data) == Ok::<_, GgufError>(g),
        model_of(data) == Ok::<_, LoadError>(m),
    ensures
        gives_count(g.kv, "bitnet-b1.58.embedding_length"@, m.n_embd),
        gives_count(g.kv, "bitnet-b1.58.block_count"@, m.n_layer),
        gives_count(g.kv, "bitnet-b1.58.attention.head_count"@, m.n_head),
        gives_count(g.kv, "bitnet-b1.58.attention.head_count_kv"@, m.n_head_kv),
        gives_count(g.kv, "bitnet-b1.58.feed_forward_length"@, m.n_ff),
        gives_count(g.kv, "bitnet-b1.58.vocab_size"@, m.vocab_size),
        !gives_count(g.kv, "bitnet-b1.58.rope.dimension_count"@, 0) ==> gives_count(
            g.kv,
            "bitnet-b1.58.rope.dimension_count"@,
            m.head_dim,
        ),
        !g.kv.contains_key("bitnet-b1.58.rope.dimension_count"@)
            || g.kv["bitnet-b1.58.rope.dimension_count"@] == MetaValue::U32(0) ==> m.head_dim
            * m.n_head <= m.n_embd < (m.head_dim + 1) * m.n_head,
        gives_real(g.kv, "bitnet-b1.58.rope.freq_base"@, m.rope_theta),
        gives_real(g.kv, "bitnet-b1.58.rope.frequency_scale"@, m.rope_freq_scale),
        gives_real(g.kv, "bitnet-b1.58.attention.layer_norm_rms_epsilon"@, m.rms_eps),
        gives_id(g.kv, "tokenizer.ggml.bos_token_id"@, 128000, m.bos_id),
        gives_id(g.kv, "tokenizer.ggml.eos_token_id"@, 128001, m.eos_id),
        m.n_ctx == 4096,
        m.n_layer > 0,
        m.n_embd > 0,
{
    let kv = g.kv;
    assert(m == assembled(kv, m.token_embd, m.final_norm, m.layers));
    assert(metadata_error(kv) is None);
    lemma_gives_count(kv, "bitnet-b1.58.embedding_length"@);
    lemma_gives_count(kv, "bitnet-b1.58.block_count"@);
    lemma_gives_count(kv, "bitnet-b1.58.attention.head_count"@);
    lemma_gives_count(kv, "bitnet-b1.58.attention.head_count_kv"@);
    lemma_gives_count(kv, "bitnet-b1.58.feed_forward_length"@);
    lemma_gives_count(kv, "bitnet-b1.58.vocab_size"@);
    lemma_gives_count(kv, "bitnet-b1.58.rope.dimension_count"@);
    lemma_gives_real(kv, "bitnet-b1.58.rope.freq_base"@);
    lemma_gives_real(kv, "bitnet-b1.58.rope.frequency_scale"@);
    lemma_gives_real(kv, "bitnet-b1.58.attention.layer_norm_rms_epsilon"@);
    lemma_gives_id(kv, "tokenizer.ggml.bos_token_id"@, 128000);
    lemma_gives_id(kv, "tokenizer.ggml.eos_token_id"@, 128001);
    if count_at(kv, "bitnet-b1.58.rope.dimension_count"@) == 0 {
        let e = m.n_embd as int;
        let h = m.n_head as int;
        let d = e / h;
        assert(0 <= d <= e && d * h <= e < (d + 1) * h) by (nonlinear_arith)
            requires
                e >= 0,
                h > 0,
                d == e / h,
        ;
    }
}

proof fn lemma_gives_count(kv: Map<Seq<char>, MetaValue>, key: Seq<char>)
    ensures
        gives_count(kv, key, count_at(kv, key)),
{
}

proof fn lemma_gives_real(kv: Map<Seq<char>, MetaValue>, key: Seq<char>)
    ensures
        gives_real(kv, key, real_at(kv, key)),
{
}

proof fn lemma_gives_id(kv: Map<Seq<char>, MetaValue>, key: Seq<char>, default: u32)
    ensures
        gives_id(kv, key, default, id_at(kv, key, default)),
{
}

/// A file that names an architecture whose name does not start with "bitnet" is not loaded, and
/// neither is one without layers or without an embedding.
pub proof fn lemma_what_is_no_model(data: Seq<u8>, g: GgufMeta)
    requires
        header_of(data) == Ok::<_, GgufError>(g),
    ensures
        g.kv.contains_key("general.architecture"@) && (g.kv["general.architecture"@] matches
            MetaValue::Text(arch) && arch.len() > 0 && !(arch.len() >= 6 && arch[0] == 'b'
            && arch[1] == 'i' && arch[2] == 't' && arch[3] == 'n' && arch[4] == 'e' && arch[5]
            == 't')) ==> model_of(data) is Err,
        !g.kv.contains_key("bitnet-b1.58.block_count"@) ==> model_of(data) is Err,
        !g.kv.contains_key("bitnet-b1.58.embedding_length"@) ==> model_of(data) is Err,
{
    reveal_strlit("bitnet");
    if g.kv.contains_key("general.architecture"@) {
        if let MetaValue::Text(arch) = g.kv["general.architecture"@] {
            if "bitnet"@.is_prefix_of(arch) {
                assert("bitnet"@ == arch.subrange(0, 6));
                assert forall|i: int| 0 <= i < 6 implies arch[i] == "bitnet"@[i] by {
                    assert(arch.subrange(0, 6)[i] == arch[i]);
                }
                assert(arch[0] == 'b' && arch[1] == 'i' && arch[2] == 't' && arch[3] == 'n'
                    && arch[4] == 'e' && arch[5] == 't');
            }
        }
    }
}

/// The tensor of a name can be loaded.
pub open spec fn loads(g: GgufMeta, data: Seq<u8>, name: Seq<char>) -> bool {
    tensor_of(g, data, name) is Ok
}

/// The tensor of a name can be loaded, and is a vector of numbers.
pub open spec fn loads_vector(g: GgufMeta, data: Seq<u8>, name: Seq<char>) -> bool {
    tensor_of(g, data, name) matches Ok(w) && w is Dense
}

/// The tensors of the layer whose names start with `start` can be loaded.
pub open spec fn loads_layer(g: GgufMeta, data: Seq<u8>, start: Seq<char>) -> bool {
    &&& loads_vector(g, data, start + "attn_norm.weight"@)
    &&& loads_vector(g, data, start + "ffn_norm.weight"@)
    &&& loads_vector(g, data, start + "attn_sub_norm.weight"@)
    &&& loads_vector(g, data, start + "ffn_sub_norm.weight"@)
    &&& loads(g, data, start + "attn_q.weight"@)
    &&& loads(g, data, start + "attn_k.weight"@)
    &&& loads(g, data, start + "attn_v.weight"@)
    &&& loads(g, data, start + "attn_output.weight"@)
    &&& loads(g, data, start + "ffn_gate.weight"@)
    &&& loads(g, data, start + "ffn_up.weight"@)
    &&& loads(g, data, start + "ffn_down.weight"@)
}

/// A file is loaded where it names no architecture or one whose name starts with "bitnet", says how
/// many layers there are and how wide the embedding is and how many heads there are or how large
/// they are, and holds all tensors.
pub proof fn lemma_what_is_a_model(data: Seq<u8>, g: GgufMeta, n_layer: u32, n_embd: u32, n_head: u32)
    requires
        header_of(data) == Ok::<_, GgufError>(g),
        g.kv.contains_key("general.architecture"@) ==> (g.kv["general.architecture"@] matches
            MetaValue::Text(arch) ==> arch.len() >= 6 && arch.take(6) == seq![
            'b',
            'i',
            't',
            'n',
            'e',
            't',
        ]),
        g.kv.contains_key("bitnet-b1.58.block_count"@),
        g.kv["bitnet-b1.58.block_count"@] == MetaValue::U32(n_layer),
        n_layer > 0,
        g.kv.contains_key("bitnet-b1.58.embedding_length"@),
        g.kv["bitnet-b1.58.embedding_length"@] == MetaValue::U32(n_embd),
        n_embd > 0,
        (g.kv.contains_key("bitnet-b1.58.attention.head_count"@)
            && g.kv["bitnet-b1.58.attention.head_count"@] == MetaValue::U32(n_head)) || (
        g.kv.contains_key("bitnet-b1.58.rope.dimension_count"@)
            && g.kv["bitnet-b1.58.rope.dimension_count"@] == MetaValue::U32(n_head)),
        n_head > 0,
        loads(g, data, "token_embd.weight"@),
        loads_vector(g, data, "output_norm.weight"@),
        forall|l: int|
            0 <= l < n_layer ==> #[trigger] loads_layer(
                g,
                data,
                "blk."@ + decimal_of(l) + "."@,
            ),
    ensures
        model_of(data) is Ok,
{
    let kv = g.kv;
    reveal_strlit("bitnet");
    let word = seq!['b', 'i', 't', 'n', 'e', 't'];
    assert("bitnet"@ =~= word);
    let arch = text_at(kv, "general.architecture"@);
    if arch.len() > 0 {
        assert(arch.subrange(0, 6) =~= arch.take(6));
        assert("bitnet"@.is_prefix_of(arch));
    }
    assert(metadata_error(kv) is None);
    assert forall|l: int| 0 <= l < n_layer implies #[trigger] layer_of(g, data, layer_prefix(l))
        is Ok by {
        assert(loads_layer(g, data, "blk."@ + decimal_of(l) + "."@));
    }
    lemma_layers_load(g, data, n_layer as int, 0, Seq::empty());
}

proof fn lemma_layers_load(g: GgufMeta, data: Seq<u8>, n: int, i: int, before: Seq<LayerMeta>)
    requires
        forall|l: int| i <= l < n ==> #[trigger] layer_of(g, data, layer_prefix(l)) is Ok,
    ensures
        layers_from(g, data, n, i, before) is Ok,
    decreases n - i,
{
    if i < n {
        let layer = layer_of(g, data, layer_prefix(i))->Ok_0;
        lemma_layers_load(g, data, n, i + 1, before.push(layer));
    }
}

/// The weights of a loaded model are the tensors of their names. Layer `l` has those whose names
/// start with `blk.`, the decimal digits of `l` and a point.
pub proof fn lemma_weights_of_a_file(data: Seq<u8>, g: GgufMeta, m: ModelMeta)
    requires
        header_of(data) == Ok::<_, GgufError>(g),
        model_of(data) == Ok::<_, LoadError>(m),
    ensures
        tensor_of(g, data, "token_embd.weight"@) == Ok::<_, LoadError>(m.token_embd),
        tensor_of(g, data, "output_norm.weight"@) == Ok::<_, LoadError>(
            Weights::Dense(m.final_norm),
        ),
        m.layers.len() == m.n_layer,
        forall|l: int|
            0 <= l < m.n_layer ==> {
                let layer = #[trigger] m.layers[l];
                let start = "blk."@ + decimal_of(l) + "."@;
                let vector = |name: Seq<char>, v: Seq<u32>|
                    tensor_of(g, data, start + name) == Ok::<_, LoadError>(Weights::Dense(v));
                let matrix = |name: Seq<char>, w: Weights|
                    tensor_of(g, data, start + name) == Ok::<_, LoadError>(w);
                &&& vector("attn_norm.weight"@, layer.attn_norm)
                &&& vector("ffn_norm.weight"@, layer.ffn_norm)
                &&& vector("attn_sub_norm.weight"@, layer.attn_sub_norm)
                &&& vector("ffn_sub_norm.weight"@, layer.ffn_sub_norm)
                &&& matrix("attn_q.weight"@, layer.q)
                &&& matrix("attn_k.weight"@, layer.k)
                &&& matrix("attn_v.weight"@, layer.v)
                &&& matrix("attn_output.weight"@, layer.o)
                &&& matrix("ffn_gate.weight"@, layer.gate)
                &&& matrix("ffn_up.weight"@, layer.up)
                &&& matrix("ffn_down.weight"@, layer.down)
            },
{
    lemma_layers(g, data, m.n_layer as int, 0, Seq::empty(), m.layers);
    assert forall|l: int| 0 <= l < m.n_layer implies layer_of(g, data, layer_prefix(l)) == Ok::<
        _,
        LoadError,
    >(#[trigger] m.layers[l]) by {}
}

/// The layers that are loaded are those of their numbers.
proof fn lemma_layers(
    g: GgufMeta,
    data: Seq<u8>,
    n: int,
    i: int,
    before: Seq<LayerMeta>,
    all: Seq<LayerMeta>,
)
    requires
        0 <= i <= n,
        before.len() == i,
        layers_from(g, data, n, i, before) == Ok::<_, LoadError>(all),
    ensures
        all.len() == n,
        forall|l: int| 0 <= l < i ==> #[trigger] all[l] == before[l],
        forall|l: int|
            i <= l < n ==> layer_of(g, data, layer_prefix(l)) == Ok::<_, LoadError>(
                #[trigger] all[l],
            ),
    decreases n - i,
{
    if i < n {
        let layer = layer_of(g, data, layer_prefix(i))->Ok_0;
        let next = before.push(layer);
        lemma_layers(g, data, n, i + 1, next, all);
        assert(all[i] == next[i]);
        assert forall|l: int| 0 <= l < i implies #[trigger] all[l] == before[l] by {
            assert(all[l] == next[l]);
        }
    }
}

/// The number that decimal digits write down.
pub open spec fn written_number(digits: Seq<char>) -> int
    decreases digits.len(),
{
    if digits.len() == 0 {
        0
    } else {
        10 * written_number(digits.drop_last()) + (digits.last() as int - '0' as int)
    }
}

/// The decimal digits of a number are digits, write down this number, and do not start with a zero
/// that could be left out.
pub proof fn lemma_digits_write_the_number(n: int)
    requires
        n >= 0,
    ensures
        written_number(decimal_of(n)) == n,
        decimal_of(n).len() > 0,
        forall|i: int| 0 <= i < decimal_of(n).len() ==> '0' <= #[trigger] decimal_of(n)[i] <= '9',
        n > 0 ==> decimal_of(n)[0] != '0',
    decreases n,
{
    let d = decimal_of(n);
    if n >= 10 {
        lemma_digits_write_the_number(n / 10);
        assert(d.drop_last() =~= decimal_of(n / 10));
        assert(d[0] == decimal_of(n / 10)[0]);
        assert forall|i: int| 0 <= i < d.len() implies '0' <= #[trigger] d[i] <= '9' by {
            if i < d.len() - 1 {
                assert(d[i] == decimal_of(n / 10)[i]);
            }
        }
    } else {
        assert(d.drop_last() =~= Seq::<char>::empty());
        assert(written_number(d.drop_last()) == 0);
    }
}

/// Of the tensors of a name, the first one in the directory is loaded.
pub proof fn lemma_first_of_a_name(tensors: Seq<TensorMeta>, name: Seq<char>, i: int, k: int)
    requires
        0 <= i <= k < tensors.len(),
        tensors[k].name == name,
        forall|j: int| i <= j < k ==> (#[trigger] tensors[j]).name != name,
    ensures
        find_from(tensors, name, i) == Some(tensors[k]),
    decreases k - i,
{
    if i < k {
        assert(tensors[i].name != name);
        lemma_first_of_a_name(tensors, name, i + 1, k);
    }
}

} // verus!
