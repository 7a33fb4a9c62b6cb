use bitnet_rs::cache::{check_cache_fits, check_holds_layers};
use bitnet_rs::chat::{encode_turn, next_step, Chat, ChatStep};
use bitnet_rs::forward::{check_knows, check_ready, check_room};
use bitnet_rs::generation::{check_knows_all, feed, next_token};
use bitnet_rs::gguf::{GgufError, RealBits};
use bitnet_rs::model::{forward_token, KVCache, Model, ModelError, TensorData};
use bitnet_rs::{linear_row, quantize_i8_blocks, Arith};

struct Native;

fn f(bits: u32) -> f32 {
    f32::from_bits(bits)
}

impl Arith for Native {
    fn plus(&self, a: u32, b: u32) -> u32 {
        (f(a) + f(b)).to_bits()
    }
    fn minus(&self, a: u32, b: u32) -> u32 {
        (f(a) - f(b)).to_bits()
    }
    fn times(&self, a: u32, b: u32) -> u32 {
        (f(a) * f(b)).to_bits()
    }
    fn over(&self, a: u32, b: u32) -> u32 {
        (f(a) / f(b)).to_bits()
    }
    fn root(&self, a: u32) -> u32 {
        f(a).sqrt().to_bits()
    }
    fn exponential(&self, a: u32) -> u32 {
        f(a).exp().to_bits()
    }
    fn power(&self, a: u32, b: u32) -> u32 {
        f(a).powf(f(b)).to_bits()
    }
    fn sin_cos(&self, a: u32) -> (u32, u32) {
        let (s, c) = f(a).sin_cos();
        (s.to_bits(), c.to_bits())
    }
    fn total(&self, xs: &[u32]) -> u32 {
        xs.iter().map(|x| f(*x)).sum::<f32>().to_bits()
    }
    fn from_int(&self, v: i32) -> u32 {
        (v as f32).to_bits()
    }
    fn from_count(&self, v: u64) -> u32 {
        (v as f32).to_bits()
    }
    fn narrow(&self, v: u64) -> u32 {
        (f64::from_bits(v) as f32).to_bits()
    }
    fn floor(&self, a: u32) -> u32 {
        libm::floorf(f(a)).to_bits()
    }
    fn rint(&self, a: u32) -> u32 {
        libm::rintf(f(a)).to_bits()
    }
    fn to_i8(&self, a: u32) -> i8 {
        f(a) as i8
    }
}

fn bits(v: &[f32]) -> Vec<u32> {
    v.iter().map(|x| x.to_bits()).collect()
}

fn floats(v: &[u32]) -> Vec<f32> {
    v.iter().map(|x| f32::from_bits(*x)).collect()
}

/// A GGUF file in the making.
struct Maker {
    kv: Vec<u8>,
    n_kv: u64,
    tensors: Vec<(String, Vec<u64>, u32, Vec<u8>)>,
}

fn put_str(out: &mut Vec<u8>, s: &str) {
    out.extend_from_slice(&(s.len() as u64).to_le_bytes());
    out.extend_from_slice(s.as_bytes());
}

impl Maker {
    fn value(&mut self, key: &str, t: u32, value: &[u8]) {
        put_str(&mut self.kv, key);
        self.kv.extend_from_slice(&t.to_le_bytes());
        self.kv.extend_from_slice(value);
        self.n_kv += 1;
    }

    fn count(&mut self, key: &str, n: u32) {
        self.value(&format!("bitnet-b1.58.{key}"), 4, &n.to_le_bytes());
    }

    fn texts(&mut self, key: &str, texts: &[String]) {
        let mut v = Vec::new();
        v.extend_from_slice(&8u32.to_le_bytes());
        v.extend_from_slice(&(texts.len() as u64).to_le_bytes());
        for t in texts {
            put_str(&mut v, t);
        }
        self.value(key, 9, &v);
    }

    fn dense(&mut self, name: &str, w: &[f32]) {
        let data = w.iter().flat_map(|x| x.to_le_bytes()).collect();
        self.tensors.push((name.to_string(), vec![w.len() as u64], 0, data));
    }

    fn remove(&mut self, name: &str) {
        self.tensors.retain(|t| t.0 != name);
    }

    fn bytes(&self) -> Vec<u8> {
        let mut out = Vec::new();
        out.extend_from_slice(b"GGUF");
        out.extend_from_slice(&3u32.to_le_bytes());
        out.extend_from_slice(&(self.tensors.len() as u64).to_le_bytes());
        out.extend_from_slice(&self.n_kv.to_le_bytes());
        out.extend_from_slice(&self.kv);
        let mut area: Vec<u8> = Vec::new();
        for (name, dims, t, data) in &self.tensors {
            put_str(&mut out, name);
            out.extend_from_slice(&(dims.len() as u32).to_le_bytes());
            for d in dims {
                out.extend_from_slice(&d.to_le_bytes());
            }
            out.extend_from_slice(&t.to_le_bytes());
            out.extend_from_slice(&(area.len() as u64).to_le_bytes());
            area.extend_from_slice(data);
            while area.len() % 32 != 0 {
                area.push(0);
            }
        }
        while out.len() % 32 != 0 {
            out.push(0);
        }
        out.extend_from_slice(&area);
        out
    }
}

const N: usize = 8;
const HEADS: usize = 2;
const KV: usize = 1;
const DIM: usize = 4;
const FF: usize = 6;
const ROWS: usize = 256;

fn noise(seed: u64, n: usize) -> Vec<f32> {
    let mut s = seed * 7919 + 1;
    (0..n)
        .map(|_| {
            s ^= s << 13;
            s ^= s >> 7;
            s ^= s << 17;
            (s % 2001) as f32 / 1000.0 - 1.0
        })
        .collect()
}

fn byte_texts() -> Vec<String> {
    let mut by_byte = vec![String::new(); 256];
    for (b, c) in bitnet_rs::byte_table::byte_to_unicode() {
        by_byte[b as usize] = c.to_string();
    }
    by_byte
}

fn metadata() -> Maker {
    let mut m = Maker { kv: vec![], n_kv: 0, tensors: vec![] };
    let mut arch = Vec::new();
    put_str(&mut arch, "bitnet-b1.58");
    m.value("general.architecture", 8, &arch);
    m.count("block_count", 2);
    m.count("embedding_length", N as u32);
    m.count("attention.head_count", HEADS as u32);
    m.count("attention.head_count_kv", KV as u32);
    m.count("feed_forward_length", FF as u32);
    m.count("vocab_size", ROWS as u32);
    m.value("bitnet-b1.58.rope.freq_base", 6, &10000f32.to_le_bytes());
    m.value("tokenizer.ggml.bos_token_id", 4, &1u32.to_le_bytes());
    m.value("tokenizer.ggml.eos_token_id", 4, &2u32.to_le_bytes());
    m.texts("tokenizer.ggml.tokens", &byte_texts());
    m.texts("tokenizer.ggml.merges", &["no-space".to_string()]);
    m
}

fn small() -> Maker {
    let mut m = metadata();
    m.dense("token_embd.weight", &noise(1, ROWS * N));
    m.dense("output_norm.weight", &noise(2, N));
    for l in 0..2u64 {
        let mut put = |name: &str, seed: u64, n: usize| {
            m.dense(&format!("blk.{l}.{name}.weight"), &noise(100 * (l + 1) + seed, n));
        };
        put("attn_norm", 1, N);
        put("ffn_norm", 2, N);
        put("attn_sub_norm", 3, N);
        put("ffn_sub_norm", 4, FF);
        put("attn_q", 5, HEADS * DIM * N);
        put("attn_k", 6, KV * DIM * N);
        put("attn_v", 7, KV * DIM * N);
        put("attn_output", 8, N * N);
        put("ffn_gate", 9, FF * N);
        put("ffn_up", 10, FF * N);
        put("ffn_down", 11, N * FF);
    }
    m
}

fn load(m: &Maker) -> Model {
    match Model::load(&m.bytes()) {
        Ok(model) => model,
        Err(e) => panic!("{}", e.message()),
    }
}

fn load_error(m: &Maker) -> String {
    match Model::load(&m.bytes()) {
        Ok(_) => panic!("loaded"),
        Err(e) => e.message(),
    }
}

fn norm(x: &[f32], w: &[f32], eps: f32) -> Vec<f32> {
    let mean = x.iter().map(|v| v * v).sum::<f32>() / x.len() as f32;
    let inv = 1.0 / (mean + eps).sqrt();
    x.iter().zip(w).map(|(a, b)| a * inv * b).collect()
}

fn times(m: &[f32], x: &[f32], k: usize) -> Vec<f32> {
    m.chunks_exact(k).map(|row| row.iter().zip(x).map(|(a, b)| a * b).sum()).collect()
}

fn quantised(x: &[f32]) -> Vec<f32> {
    let (q, s) = quantize_i8_blocks(&Native, &bits(x));
    q.iter().enumerate().map(|(i, v)| *v as f32 * f(s[i / 64])).collect()
}

fn turn(v: &mut [f32], heads: usize, pos: usize) {
    for h in 0..heads {
        for d in [0, 2] {
            let freq = 1.0 / 10000f32.powf(d as f32 / DIM as f32);
            let (s, c) = (pos as f32 * freq).sin_cos();
            let i = h * DIM + d;
            let (a, b) = (v[i], v[i + 1]);
            v[i] = a * c - b * s;
            v[i + 1] = a * s + b * c;
        }
    }
}

/// The logits of the last of `tokens`, computed from scratch in plain floating point.
fn plain_logits(tokens: &[u32]) -> Vec<f32> {
    let eps = 1e-5f32;
    let e = noise(1, ROWS * N);
    let mut keys: Vec<Vec<Vec<f32>>> = vec![vec![]; 2];
    let mut values: Vec<Vec<Vec<f32>>> = vec![vec![]; 2];
    let mut logits = vec![];
    for (pos, token) in tokens.iter().enumerate() {
        let mut x = e[*token as usize * N..(*token as usize + 1) * N].to_vec();
        for l in 0..2usize {
            let w = |seed: u64, n: usize| noise(100 * (l as u64 + 1) + seed, n);
            let xn = quantised(&norm(&x, &w(1, N), eps));
            let mut q = times(&w(5, HEADS * DIM * N), &xn, N);
            let mut k = times(&w(6, KV * DIM * N), &xn, N);
            let v = times(&w(7, KV * DIM * N), &xn, N);
            turn(&mut q, HEADS, pos);
            turn(&mut k, KV, pos);
            keys[l].push(k);
            values[l].push(v);
            let mut out = vec![0f32; N];
            for h in 0..HEADS {
                let scores: Vec<f32> = keys[l]
                    .iter()
                    .map(|k| {
                        let mut acc = 0f32;
                        for d in 0..DIM {
                            acc += q[h * DIM + d] * k[d];
                        }
                        acc / (DIM as f32).sqrt()
                    })
                    .collect();
                let max = scores.iter().cloned().fold(f32::NEG_INFINITY, f32::max);
                let exps: Vec<f32> = scores.iter().map(|s| (s - max).exp()).collect();
                let sum: f32 = exps.iter().sum();
                for d in 0..DIM {
                    let mut acc = 0f32;
                    for t in 0..=pos {
                        acc += exps[t] / sum * values[l][t][d];
                    }
                    out[h * DIM + d] = acc;
                }
            }
            let o = times(&w(8, N * N), &norm(&out, &w(3, N), eps), N);
            for i in 0..N {
                x[i] += o[i];
            }
            let xn = quantised(&norm(&x, &w(2, N), eps));
            let g = times(&w(9, FF * N), &xn, N);
            let up = times(&w(10, FF * N), &xn, N);
            let gated: Vec<f32> = (0..FF)
                .map(|i| {
                    let r = if g[i] > 0.0 { g[i] } else { 0.0 };
                    r * r * up[i]
                })
                .collect();
            let down = times(&w(11, N * FF), &norm(&gated, &w(4, FF), eps), FF);
            for i in 0..N {
                x[i] += down[i];
            }
        }
        logits = times(&e, &norm(&x, &noise(2, N), eps), N);
    }
    logits
}

#[test]
fn a_model_loads() {
    let m = load(&small());
    assert_eq!((m.n_embd, m.n_layer, m.n_head, m.n_head_kv), (N, 2, HEADS, KV));
    assert_eq!((m.head_dim, m.n_ff, m.vocab_size, m.n_ctx), (DIM, FF, ROWS, 4096));
    assert_eq!((m.bos_id, m.eos_id), (1, 2));
    assert_eq!(m.rope_theta, RealBits::Single(10000f32.to_bits()));
    assert_eq!(m.rms_eps, RealBits::Single(1e-5f32.to_bits()));
    assert_eq!(floats(&m.final_norm), noise(2, N));
    assert_eq!(m.layers.len(), 2);
    assert_eq!(floats(&m.layers[1].ffn_sub_norm), noise(204, FF));
    match &m.layers[0].up {
        TensorData::F32(w) => assert_eq!(floats(w), noise(110, FF * N)),
        TensorData::I2(_) => panic!("ternary"),
    }
    assert!(check_ready(&m) && check_cache_fits(&m));
}

#[test]
fn defaults_fill_in() {
    let mut m = small();
    m.kv = vec![];
    m.n_kv = 0;
    m.count("block_count", 1);
    m.count("embedding_length", N as u32);
    m.count("rope.dimension_count", 2);
    let model = load(&m);
    assert_eq!((model.bos_id, model.eos_id, model.head_dim), (128000, 128001, 2));
    assert_eq!(model.rope_theta, RealBits::Single(1e-5f32.to_bits()));
    assert_eq!(model.encode("x"), vec![128000]);
}

#[test]
fn other_architectures_are_refused() {
    let mut m = small();
    let mut arch = Vec::new();
    put_str(&mut arch, "llama");
    m.value("general.architecture", 8, &arch);
    let want = "模型格式错误: 不是 BitNet 架构的 gguf（general.architecture = llama）";
    assert_eq!(load_error(&m), want);
}

#[test]
fn missing_structure_is_reported() {
    let m = Maker { kv: vec![], n_kv: 0, tensors: vec![] };
    let want = "模型格式错误: 缺少 bitnet-b1.58.* 结构元数据（block_count / embedding_length）";
    assert_eq!(load_error(&m), want);
    let mut m = Maker { kv: vec![], n_kv: 0, tensors: vec![] };
    m.count("block_count", 1);
    m.count("embedding_length", 8);
    let want = "模型格式错误: 缺少 bitnet-b1.58.* 结构元数据（attention.head_count）";
    assert_eq!(load_error(&m), want);
}

#[test]
fn missing_tensors_are_reported() {
    let mut m = small();
    m.remove("blk.1.ffn_up.weight");
    assert_eq!(load_error(&m), "模型格式错误: 张量 blk.1.ffn_up.weight 不存在");
    m.remove("blk.0.attn_q.weight");
    assert_eq!(load_error(&m), "模型格式错误: 张量 blk.0.attn_q.weight 不存在");
    m.remove("token_embd.weight");
    assert_eq!(load_error(&m), "模型格式错误: 张量 token_embd.weight 不存在");
}

#[test]
fn unknown_tensor_types_are_reported() {
    let mut m = small();
    for t in m.tensors.iter_mut() {
        if t.0 == "blk.0.attn_v.weight" {
            t.2 = 7;
        }
    }
    assert_eq!(load_error(&m), "模型格式错误: 不支持的张量类型 7（blk.0.attn_v.weight）");
}

#[test]
fn norms_must_be_dense() {
    let mut m = small();
    m.remove("blk.0.ffn_norm.weight");
    m.tensors.push(("blk.0.ffn_norm.weight".to_string(), vec![128], 36, vec![0; 64]));
    assert_eq!(load_error(&m), "模型格式错误: blk.0.ffn_norm.weight 不是 f32");
    m.remove("output_norm.weight");
    m.tensors.push(("output_norm.weight".to_string(), vec![128], 36, vec![0; 64]));
    assert_eq!(load_error(&m), "模型格式错误: output_norm 不是 f32");
}

#[test]
fn ternary_tensors_come_in_groups() {
    let mut m = small();
    m.remove("blk.0.attn_q.weight");
    m.tensors.push(("blk.0.attn_q.weight".to_string(), vec![64], 36, vec![0; 64]));
    assert_eq!(load_error(&m), "模型格式错误: 张量 blk.0.attn_q.weight 的权重数无效");
}

#[test]
fn short_files_are_reported() {
    let data = small().bytes();
    match Model::load(&data[..data.len() - 64]) {
        Err(ModelError::Io(e)) => assert_eq!(e, GgufError::UnexpectedEof),
        _ => panic!("loaded"),
    }
    let mut data = data;
    let name = b"token_embd.weight";
    let at = data.windows(name.len()).position(|w| w == name).unwrap() + name.len() + 16;
    data[at..at + 8].copy_from_slice(&(1u64 << 63).to_le_bytes());
    match Model::load(&data) {
        Err(ModelError::Io(e)) => assert_eq!(e, GgufError::InvalidOffset),
        _ => panic!("loaded"),
    }
    match Model::load(b"GGML") {
        Err(e) => assert_eq!(e.message(), "IO 错误: not a GGUF file"),
        Ok(_) => panic!("loaded"),
    }
    let e: ModelError = ModelError::from(GgufError::NotGguf);
    assert_eq!(e.message(), "IO 错误: not a GGUF file");
}

#[test]
fn narrow_numbers_widen() {
    let mut m = small();
    let halves: Vec<u8> = (0..N).flat_map(|i| (0x3c00u16 + i as u16).to_le_bytes()).collect();
    m.remove("blk.0.attn_norm.weight");
    m.tensors.push(("blk.0.attn_norm.weight".to_string(), vec![N as u64], 1, halves));
    let brains: Vec<u8> = (0..N).flat_map(|i| (0x4000u16 + i as u16).to_le_bytes()).collect();
    m.remove("blk.0.ffn_norm.weight");
    m.tensors.push(("blk.0.ffn_norm.weight".to_string(), vec![N as u64], 2, brains));
    let model = load(&m);
    let want: Vec<f32> = (0..N).map(|i| 1.0 + i as f32 / 1024.0).collect();
    assert_eq!(floats(&model.layers[0].attn_norm), want);
    let want: Vec<f32> = (0..N).map(|i| 2.0 + i as f32 / 64.0).collect();
    assert_eq!(floats(&model.layers[0].ffn_norm), want);
}

#[test]
fn texts_encode_behind_the_start() {
    let m = load(&small());
    assert_eq!(m.encode("Hi 你"), vec![1, 72, 105, 32, 0xe4, 0xbd, 0xa0]);
    assert_eq!(m.decode(&m.encode("Hi 你")[1..]), "Hi 你");
}

#[test]
fn merges_and_special_texts_load() {
    let mut m = small();
    m.texts("tokenizer.ggml.merges", &["no-space".to_string(), "H i".to_string()]);
    let mut texts = byte_texts();
    texts[3] = "Hi".to_string();
    m.texts("tokenizer.ggml.tokens", &texts);
    let model = load(&m);
    assert_eq!(model.encode("Hi!"), vec![1, 3, 33]);
}

#[test]
fn a_cache_starts_empty() {
    let m = load(&small());
    let kv = KVCache::new(&m);
    assert_eq!((kv.k.len(), kv.v.len(), kv.pos), (2 * KV * 4096 * DIM, 2 * KV * 4096 * DIM, 0));
    assert!(kv.k.iter().chain(&kv.v).all(|x| *x == 0));
}

#[test]
fn logits_are_those_of_plain_arithmetic() {
    let m = load(&small());
    let mut kv = KVCache::new(&m);
    let tokens = [1u32, 72, 105, 255, 0, 72];
    for n in 1..=tokens.len() {
        let logits = forward_token(&Native, &m, &mut kv, tokens[n - 1]);
        assert_eq!(floats(&logits), plain_logits(&tokens[..n]));
        assert_eq!(kv.pos, n);
    }
}

#[test]
fn fewer_layers_and_longer_caches_do() {
    let mut m = load(&small());
    m.layers.pop();
    assert!(check_ready(&m) && check_holds_layers(&m));
    let mut long = KVCache::new(&m);
    m.n_layer = 1;
    let mut exact = KVCache::new(&m);
    assert_eq!(long.k.len(), 2 * exact.k.len());
    let x = feed(&Native, &m, &mut exact, &[3, 4]);
    assert_eq!(feed(&Native, &m, &mut long, &[3, 4]), x);
    assert_eq!(long.k[..exact.k.len()], exact.k[..]);
    assert!(long.k[exact.k.len()..].iter().all(|v| *v == 0));
}

#[test]
fn a_model_without_layers_looks_rows_up() {
    let mut m = load(&small());
    m.layers.clear();
    m.n_head_kv = 0;
    m.n_ctx = 0;
    assert!(check_ready(&m) && check_room(&m, 7, 1));
    let mut kv = KVCache { k: vec![], v: vec![], pos: 7 };
    let logits = forward_token(&Native, &m, &mut kv, 9);
    let e = noise(1, ROWS * N);
    let want = times(&e, &norm(&e[9 * N..10 * N], &noise(2, N), 1e-5), N);
    assert_eq!(floats(&logits), want);
    assert_eq!(kv.pos, 8);
    let g = m.generate(&Native, "Hi", 4, 0).ok().unwrap();
    assert_eq!((g.prompt_tokens, g.gen_tokens), (3, 0));
}

#[test]
fn a_token_writes_its_own_position_only() {
    let m = load(&small());
    let mut kv = KVCache::new(&m);
    feed(&Native, &m, &mut kv, &[1, 2, 3]);
    let (k, v) = (kv.k.clone(), kv.v.clone());
    forward_token(&Native, &m, &mut kv, 4);
    for i in 0..k.len() {
        if i / DIM % 4096 != 3 {
            assert_eq!((k[i], v[i]), (kv.k[i], kv.v[i]));
        }
    }
    assert!((0..k.len()).any(|i| i / DIM % 4096 == 3 && k[i] != kv.k[i]));
}

#[test]
fn later_positions_are_not_read() {
    let m = load(&small());
    let mut a = KVCache::new(&m);
    let mut b = KVCache::new(&m);
    feed(&Native, &m, &mut a, &[1, 9]);
    feed(&Native, &m, &mut b, &[1, 9]);
    for i in 0..b.k.len() {
        if i / DIM % 4096 >= 2 {
            b.k[i] = 0x7fc0_0000;
            b.v[i] = 0x7fc0_0000;
        }
    }
    let x = forward_token(&Native, &m, &mut a, 7);
    assert_eq!(forward_token(&Native, &m, &mut b, 7), x);
}

#[test]
fn two_runs_make_one() {
    let m = load(&small());
    let mut one = KVCache::new(&m);
    let mut two = KVCache::new(&m);
    let x = feed(&Native, &m, &mut one, &[5, 6, 7, 8]);
    feed(&Native, &m, &mut two, &[5, 6]);
    assert_eq!(feed(&Native, &m, &mut two, &[7, 8]), x);
    assert_eq!((one.k, one.v, one.pos), (two.k, two.v, two.pos));
}

#[test]
fn nothing_fed_gives_no_logits() {
    let m = load(&small());
    let mut kv = KVCache::new(&m);
    assert!(feed(&Native, &m, &mut kv, &[]).is_empty());
    assert_eq!(kv.pos, 0);
}

fn greedy(ids: &[u32], max: usize, eos: u32) -> Vec<u32> {
    let mut all = ids.to_vec();
    let mut out = vec![];
    while out.len() < max {
        let logits = plain_logits(&all);
        let mut best = 0;
        for i in 1..logits.len() {
            if logits[i] >= logits[best] {
                best = i;
            }
        }
        if best as u32 == eos {
            break;
        }
        out.push(best as u32);
        all.push(best as u32);
    }
    out
}

#[test]
fn greedy_generation_takes_the_greatest() {
    let m = load(&small());
    let out = greedy(&m.encode("Hi"), 6, m.eos_id);
    let g = m.generate(&Native, "Hi", 6, 0).ok().unwrap();
    assert_eq!((g.prompt_tokens, g.gen_tokens), (3, out.len()));
    assert_eq!(g.text, m.decode(&out));
    let again = m.generate(&Native, "Hi", 6, (-1f32).to_bits()).ok().unwrap();
    assert_eq!((again.text, again.gen_tokens), (g.text, g.gen_tokens));
    let none = m.generate(&Native, "Hi", 0, 0).ok().unwrap();
    assert_eq!((none.text.as_str(), none.gen_tokens), ("", 0));
}

#[test]
fn a_smaller_bound_gives_the_start() {
    let m = load(&small());
    let long = m.generate(&Native, "Hi", 7, 0).ok().unwrap();
    for max in 0..7u32 {
        let short = m.generate(&Native, "Hi", max, 0).ok().unwrap();
        assert_eq!(short.gen_tokens, long.gen_tokens.min(max as usize));
        assert_eq!(short.prompt_tokens, long.prompt_tokens);
        let out = greedy(&m.encode("Hi"), 7, m.eos_id);
        assert_eq!(short.text, m.decode(&out[..short.gen_tokens]));
    }
}

#[test]
fn generation_stops_at_the_end_of_the_text() {
    let mut m = load(&small());
    let out = greedy(&m.encode("Hi"), 4, u32::MAX);
    m.eos_id = out[2];
    let n = out.iter().position(|t| *t == m.eos_id).unwrap();
    let g = m.generate(&Native, "Hi", 4, 0).ok().unwrap();
    assert_eq!(g.gen_tokens, n);
    assert_eq!(g.text, m.decode(&out[..n]));
}

#[test]
fn generation_stops_where_the_cache_is_full() {
    let mut m = load(&small());
    m.n_ctx = 5;
    m.eos_id = u32::MAX;
    let g = m.generate(&Native, "Hi", 100, 0).ok().unwrap();
    assert_eq!((g.prompt_tokens, g.gen_tokens), (3, 2));
}

#[test]
fn warm_generation_stays_in_bounds() {
    let m = load(&small());
    for _ in 0..3 {
        let g = m.generate(&Native, "Hi", 5, 1f32.to_bits()).ok().unwrap();
        assert!(g.gen_tokens <= 5);
    }
}

#[test]
fn logits_that_cannot_be_compared_are_reported() {
    let mut m = load(&small());
    m.final_norm[0] = f32::NAN.to_bits();
    match m.generate(&Native, "Hi", 5, 0) {
        Err(e) => assert_eq!(e.message(), "模型格式错误: logits 无法比较"),
        Ok(_) => panic!("generated"),
    }
    let mut kv = KVCache::new(&m);
    assert!(next_token(&Native, &m, &mut kv, 1, 0).is_err());
    assert_eq!(kv.pos, 1);
}

#[test]
fn the_next_token_is_that_of_the_logits() {
    let m = load(&small());
    let mut kv = KVCache::new(&m);
    let t = next_token(&Native, &m, &mut kv, 72, 0).ok().unwrap();
    assert_eq!(vec![t], greedy(&[72], 1, u32::MAX));
}

#[test]
fn lines_of_a_chat() {
    assert_eq!(next_step(None), ChatStep::Stop);
    assert_eq!(next_step(Some("")), ChatStep::AskAgain);
    assert_eq!(next_step(Some("hi")), ChatStep::Turn);
}

#[test]
fn a_chat_keeps_its_cache() {
    let mut m = load(&small());
    m.eos_id = u32::MAX;
    let mut chat = Chat::new(&m);
    let first = encode_turn(&m, "Hi");
    assert_eq!(m.decode(&first), "Human: Hi\n\nBITNETAssistant: ");
    let r = chat.turn(&Native, &m, "Hi", 4);
    assert_eq!((r.tokens.len(), r.context_full), (4, false));
    assert_eq!(r.text, m.decode(&r.tokens));
    assert_eq!(chat.kv.pos, first.len() + 4);
    assert_eq!(chat.history, [first.clone(), r.tokens.clone()].concat());
    let mut kv = KVCache::new(&m);
    let mut fed = first.clone();
    fed.push(*first.last().unwrap());
    fed.extend_from_slice(&r.tokens[..3]);
    feed(&Native, &m, &mut kv, &fed);
    assert_eq!((&kv.k, &kv.v), (&chat.kv.k, &chat.kv.v));
    let second = chat.turn(&Native, &m, "more", 2);
    assert_eq!(chat.kv.pos, first.len() + 4 + encode_turn(&m, "more").len() + 2);
    assert_eq!(chat.history.len(), first.len() + 4 + encode_turn(&m, "more").len() + 2);
    assert!(!second.context_full);
}

#[test]
fn a_chat_stops_where_the_cache_is_full() {
    let mut m = load(&small());
    m.eos_id = u32::MAX;
    let n = encode_turn(&m, "x").len();
    m.n_ctx = n + 3;
    let mut chat = Chat::new(&m);
    let r = chat.turn(&Native, &m, "x", 50);
    assert_eq!((r.tokens.len(), r.context_full, chat.kv.pos), (3, true, n + 3));
}

#[test]
fn models_that_cannot_be_evaluated_are_told() {
    let m = load(&small());
    assert!(check_knows(&m, 255) && !check_knows(&m, 256));
    assert!(check_knows_all(&m, &[0, 255]) && !check_knows_all(&m, &[0, 256]));
    let mut broken = load(&small());
    broken.n_head = 1;
    broken.n_head_kv = 2;
    assert!(!check_ready(&broken));
    let mut broken = load(&small());
    broken.n_ff = FF + 1;
    assert!(!check_ready(&broken));
    let mut broken = load(&small());
    broken.head_dim = DIM + 1;
    assert!(!check_ready(&broken));
    let mut more = load(&small());
    more.n_layer = 1;
    assert!(check_ready(&more) && !check_holds_layers(&more));
    more.n_ctx = 0;
    assert!(check_holds_layers(&more));
    assert!(check_room(&m, 4095, 1) && !check_room(&m, 4096, 1));
    assert!(!check_room(&m, usize::MAX, 1));
    let mut huge = load(&small());
    huge.n_ctx = usize::MAX / 2;
    assert!(!check_cache_fits(&huge));
}

/// Packs codes as a GGUF tensor does: 128 weights in 32 bytes, and the scale behind them.
fn packed(codes: &[u8], scale: f32) -> Vec<u8> {
    let mut out = vec![0u8; codes.len() / 4];
    for (i, c) in codes.iter().enumerate() {
        out[i / 128 * 32 + i % 32] |= c << (6 - 2 * (i % 128 / 32));
    }
    out.extend_from_slice(&scale.to_le_bytes());
    out.resize(codes.len() / 4 + 32, 0);
    out
}

#[test]
fn ternary_models_run() {
    let n = 64usize;
    let mut m = Maker { kv: vec![], n_kv: 0, tensors: vec![] };
    m.count("block_count", 1);
    m.count("embedding_length", n as u32);
    m.count("attention.head_count", 2);
    m.count("attention.head_count_kv", 2);
    m.count("feed_forward_length", 128);
    m.dense("token_embd.weight", &noise(1, 4 * n));
    m.dense("output_norm.weight", &noise(2, n));
    for (name, len) in [("attn_norm", n), ("ffn_norm", n), ("attn_sub_norm", n), ("ffn_sub_norm", 128)] {
        m.dense(&format!("blk.0.{name}.weight"), &noise(len as u64, len));
    }
    let mut codes_of_q = vec![];
    for (i, (name, rows, cols)) in [
        ("attn_q", n, n),
        ("attn_k", n, n),
        ("attn_v", n, n),
        ("attn_output", n, n),
        ("ffn_gate", 128, n),
        ("ffn_up", 128, n),
        ("ffn_down", n, 128),
    ]
    .iter()
    .enumerate()
    {
        let codes: Vec<u8> = (0..rows * cols).map(|j| ((j * 31 + i) % 7 % 3) as u8).collect();
        let data = packed(&codes, 0.5 + i as f32);
        if i == 0 {
            codes_of_q = codes;
        }
        let dims = vec![*cols as u64, *rows as u64];
        m.tensors.push((format!("blk.0.{name}.weight"), dims, 36, data));
    }
    let model = load(&m);
    match &model.layers[0].q {
        TensorData::I2(t) => {
            assert_eq!(t.n, n * n);
            assert!((0..t.n).all(|i| t.get_code(i) == codes_of_q[i] as i8 - 1));
            assert!(t.scales.iter().all(|s| f(*s) == 0.5));
            let x = bits(&noise(9, n));
            let out = bitnet_rs::matrix::i2_matvec(&Native, &model.layers[0].q, &x);
            let rows: Vec<u32> = (0..n).map(|r| linear_row(&Native, t, r, n, &x)).collect();
            assert_eq!(out, rows);
            let (y, s) = quantize_i8_blocks(&Native, &x);
            let shared = bitnet_rs::matrix::i2_matvec_q(&Native, &model.layers[0].q, &y, &s, n);
            assert_eq!(shared, out);
        }
        TensorData::F32(_) => panic!("dense"),
    }
    assert!(check_ready(&model));
    let mut kv = KVCache::new(&model);
    let logits = feed(&Native, &model, &mut kv, &[0, 3, 2]);
    assert_eq!(logits.len(), 4);
    assert!(floats(&logits).iter().all(|x| x.is_finite()));
}
