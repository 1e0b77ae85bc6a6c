//! Verified core of a streaming LLM inference engine.
//!
//! Everything here works on plain values. A floating-point number is carried as
//! its IEEE-754 bit pattern, or as the exact integers that it is computed from;
//! the arithmetic on the number itself belongs to the callers.

pub mod ace;
pub mod engine;
pub mod gguf;
pub mod gpu;
pub mod halves;
pub mod kernels;
pub mod quant;
pub mod server;
pub mod sorting;
pub mod sums;
pub mod tensors;
pub mod text;
