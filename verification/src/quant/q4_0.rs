//! Q4_0: blocks of 32 elements in 18 bytes.
//!
//! A half-precision scale, then 32 elements of 4 bits around 8.

use vstd::prelude::*;

use crate::gguf::error::GgufError;
use crate::halves::f16_widened;
use crate::quant::element;
use crate::quant::lemma_one_block;
use crate::quant::le16;
use crate::quant::plain;
use crate::quant::decode;
use crate::quant::decoded;
use crate::quant::get_nibble;
use crate::quant::nibble;
use crate::quant::BlockFormat;
use crate::quant::Terms;
use crate::quant::Weight;

verus! {

/// The Q4_0 block format.
#[allow(non_camel_case_types)]
pub struct Q4_0 {}

impl BlockFormat for Q4_0 {
    open spec fn spec_elems() -> nat {
        32
    }

    open spec fn spec_bytes() -> nat {
        18
    }

    open spec fn spec_d_at() -> nat {
        0
    }

    open spec fn spec_dmin_at() -> Option<nat> {
        None
    }

    open spec fn spec_shift() -> u8 {
        0
    }

    open spec fn spec_terms(block: Seq<u8>, i: int) -> Terms {
        Terms { scale: 1, min: 0, q: (nibble(block[2 + i / 2], i % 2 == 1) - 8) as i16 }
    }

    proof fn lemma_layout() {
    }

    fn elems() -> (r: usize) {
        32
    }

    fn bytes() -> (r: usize) {
        18
    }

    fn d_at() -> (r: usize) {
        0
    }

    fn dmin_at() -> (r: Option<usize>) {
        None
    }

    fn shift() -> (r: u8) {
        0
    }

    fn terms(block: &[u8], i: usize) -> (r: Terms) {
        let v = get_nibble(block[2 + i / 2], i % 2 == 1);
        Terms { scale: 1, min: 0, q: v as i16 - 8 }
    }
}

/// Decodes `n` elements.
pub fn dequant(raw: &[u8], n: usize) -> (r: Result<Vec<Weight>, GgufError>)
    requires
        n <= usize::MAX / 4,
    ensures
        decoded::<Q4_0>(raw@, n as nat, r),
{
    decode::<Q4_0>(raw, n)
}

/// What is decoded gives the block back: two elements around 8 make a byte, the first one its
/// low half; the factor is in front.
pub proof fn law_q4_0_gives_block_back(block: Seq<u8>, k: int)
    requires
        block.len() == 18,
        0 <= k < 16,
    ensures
        ({
            let a = element::<Q4_0>(block, 2 * k);
            let b = element::<Q4_0>(block, 2 * k + 1);
            &&& block[2 + k] == (a.q + 8) + 16 * (b.q + 8)
            &&& 0 <= a.q + 8 < 16 && 0 <= b.q + 8 < 16
            &&& a == (Weight { q: a.q, ..plain(f16_widened(le16(block, 0))) })
            &&& b == (Weight { q: b.q, ..plain(f16_widened(le16(block, 0))) })
        }),
{
    lemma_one_block::<Q4_0>(block, 2 * k);
    lemma_one_block::<Q4_0>(block, 2 * k + 1);
}

} // verus!
