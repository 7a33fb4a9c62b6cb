//! BitNet b1.58 inference: ternary weights, integer dot products, GGUF files, byte-level BPE, the
//! forward pass of the transformer and the generation of text.
//!
//! Floating-point values are held as their IEEE 754 bit patterns. What can be said of them
//! exactly (order, sign, magnitude, widening conversions) is stated over the numbers the patterns
//! stand for; the arithmetic itself comes from an implementation of [`Arith`].

pub mod anatomy;
pub mod arith;
pub mod attention;
pub mod byte_table;
pub mod bytes;
pub mod cache;
pub mod causal;
pub mod chat;
pub mod choices;
pub mod clock;
pub mod determinism;
pub mod dot;
pub mod float;
pub mod forward;
pub mod generation;
pub mod gguf;
pub mod i2;
pub mod lanes;
pub mod linear;
pub mod loading;
pub mod matrix;
pub mod merge_order;
pub mod merges;
pub mod model;
pub mod ops;
pub mod reading;
pub mod record;
pub mod requantize;
pub mod rope;
pub mod round_trip;
pub mod sampling;
pub mod shapes;
pub mod summary;
pub mod text;
pub mod tokenizer;
pub mod weights;

pub use arith::Arith;
pub use dot::vec_dot_i2_i8_s_1x1;
pub use i2::{quantize_i2_s, row_bytes, I2Tensor, GROUP_SIZE, QK_I2_S};
pub use linear::{
    i2_matvec_parallel, linear, linear_row, linear_row_q, quantize_i8, quantize_i8_blocks,
};
