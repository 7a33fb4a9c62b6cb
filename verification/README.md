# bitnet-rs

BitNet b1.58 inference in Rust, verified with Verus: ternary weights and their integer dot
products, GGUF files, a byte-level BPE tokenizer, the forward pass of the transformer, sampling,
generation and chat.

Floating-point numbers are held as bit patterns. Order, sign, magnitude and widening are proved
over the numbers that the patterns stand for. Arithmetic comes from an implementation of the trait
`Arith`, of which nothing is assumed: contracts say which operation is applied to what, and in
which order.

## Layout

- `src/float.rs`, `src/arith.rs`: numbers as bit patterns, and arithmetic on them
- `src/i2.rs`, `src/requantize.rs`, `src/dot.rs`, `src/linear.rs`, `src/matrix.rs`: packing, dot
  products, matrices
- `src/gguf.rs`, `src/summary.rs`, `src/weights.rs`, `src/model.rs`: files, tensors, models
- `src/byte_table.rs`, `src/merges.rs`, `src/tokenizer.rs`, `src/round_trip.rs`: the tokenizer
- `src/ops.rs`, `src/rope.rs`, `src/cache.rs`, `src/attention.rs`, `src/forward.rs`,
  `src/causal.rs`: the forward pass and its cache
- `src/sampling.rs`, `src/generation.rs`, `src/chat.rs`, `src/determinism.rs`: text out of logits
- `src/record.rs`: records of one dot product, for comparison byte by byte
- `src/bytes.rs`, `src/text.rs`, `src/clock.rs`: what is taken from `byteorder` and `std`
- `app/`: the command line

## Use

```
infer models/ggml-model-i2_s.gguf "Once upon a time" -n 40 -t 0.7
CHAT=1 infer models/ggml-model-i2_s.gguf --chat
dump models/ggml-model-i2_s.gguf
compare <n_weights> <n_activ> input.bin output.bin
```
