//! Compute kernels: the integer side of the fused matrix-vector products and the
//! simulated vector unit.

pub mod fused_gemv_q4k;
pub mod fused_gemv_q6k;
pub mod hvx_sim;
