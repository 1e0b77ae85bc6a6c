//! Half-precision and bfloat16 elements.

use vstd::prelude::*;

use crate::gguf::error::GgufError;
use crate::halves::bf16_to_f32_bits;
use crate::halves::bf16_widened;
use crate::halves::f16_to_f32_bits;
use crate::halves::f16_widened;
use crate::quant::le16;
use crate::quant::plain;
use crate::quant::read_le16;
use crate::quant::Weight;

verus! {

/// The error that `n` elements of two bytes do not fit in `raw`.
pub open spec fn short(raw: Seq<u8>, n: nat) -> GgufError {
    GgufError::BufferTooSmall { needed: (n * 2) as usize, got: raw.len() as usize }
}

/// What decoding `n` half-precision elements gives.
pub open spec fn decoded_half(raw: Seq<u8>, n: nat, r: Result<Vec<Weight>, GgufError>) -> bool {
    match r {
        Ok(v) => raw.len() >= n * 2 && v@ == Seq::new(
            n,
            |g: int| plain(f16_widened(le16(raw, 2 * g))),
        ),
        Err(e) => raw.len() < n * 2 && e == short(raw, n),
    }
}

/// What decoding `n` bfloat16 elements gives.
pub open spec fn decoded_bf16(raw: Seq<u8>, n: nat, r: Result<Vec<Weight>, GgufError>) -> bool {
    match r {
        Ok(v) => raw.len() >= n * 2 && v@ == Seq::new(
            n,
            |g: int| plain(bf16_widened(le16(raw, 2 * g))),
        ),
        Err(e) => raw.len() < n * 2 && e == short(raw, n),
    }
}

/// Decodes half-precision elements.
pub fn dequant_f16(raw: &[u8], n: usize) -> (r: Result<Vec<Weight>, GgufError>)
    requires
        n <= usize::MAX / 4,
    ensures
        decoded_half(raw@, n as nat, r),
{
    if raw.len() < n * 2 {
        return Err(GgufError::BufferTooSmall { needed: n * 2, got: raw.len() });
    }
    let mut out: Vec<Weight> = Vec::new();
    let mut i: usize = 0;
    while i < n
        invariant
            i <= n,
            n <= usize::MAX / 4,
            raw@.len() >= n * 2,
            out@ =~= Seq::new(i as nat, |g: int| plain(f16_widened(le16(raw@, 2 * g)))),
        decreases n - i,
    {
        let bits: u32 = f16_to_f32_bits(read_le16(raw, 2 * i));
        out.push(Weight { d: bits, dmin: 0, scale: 1, min: 0, q: 1, shift: 0 });
        i += 1;
    }
    Ok(out)
}

/// Decodes bfloat16 elements.
pub fn dequant_bf16(raw: &[u8], n: usize) -> (r: Result<Vec<Weight>, GgufError>)
    requires
        n <= usize::MAX / 4,
    ensures
        decoded_bf16(raw@, n as nat, r),
{
    if raw.len() < n * 2 {
        return Err(GgufError::BufferTooSmall { needed: n * 2, got: raw.len() });
    }
    let mut out: Vec<Weight> = Vec::new();
    let mut i: usize = 0;
    while i < n
        invariant
            i <= n,
            n <= usize::MAX / 4,
            raw@.len() >= n * 2,
            out@ =~= Seq::new(i as nat, |g: int| plain(bf16_widened(le16(raw@, 2 * g)))),
        decreases n - i,
    {
        let bits: u32 = bf16_to_f32_bits(read_le16(raw, 2 * i));
        out.push(Weight { d: bits, dmin: 0, scale: 1, min: 0, q: 1, shift: 0 });
        i += 1;
    }
    Ok(out)
}

} // verus!
