//! Q8_0: blocks of 32 elements in 34 bytes.
//!
//! A half-precision scale, then 32 signed bytes.

use vstd::prelude::*;

use crate::gguf::error::GgufError;
use crate::halves::f16_widened;
use crate::gguf::reader::signed;
use crate::quant::element;
use crate::quant::lemma_one_block;
use crate::quant::le16;
use crate::quant::plain;
use crate::quant::decode;
use crate::quant::decoded;
use crate::quant::signed_byte;
use crate::quant::BlockFormat;
use crate::quant::Terms;
use crate::quant::Weight;

verus! {

/// The Q8_0 block format.
#[allow(non_camel_case_types)]
pub struct Q8_0 {}

impl BlockFormat for Q8_0 {
    open spec fn spec_elems() -> nat {
        32
    }

    open spec fn spec_bytes() -> nat {
        34
    }

    open spec fn spec_d_at() -> nat {
        0
    }

    open spec fn spec_dmin_at() -> Option<nat> {
        None
    }

    open spec fn spec_shift() -> u8 {
        0
    }

    open spec fn spec_terms(block: Seq<u8>, i: int) -> Terms {
        Terms { scale: 1, min: 0, q: signed(block[2 + i] as int, 0x80) as i16 }
    }

    proof fn lemma_layout() {
    }

    fn elems() -> (r: usize) {
        32
    }

    fn bytes() -> (r: usize) {
        34
    }

    fn d_at() -> (r: usize) {
        0
    }

    fn dmin_at() -> (r: Option<usize>) {
        None
    }

    fn shift() -> (r: u8) {
        0
    }

    fn terms(block: &[u8], i: usize) -> (r: Terms) {
        Terms { scale: 1, min: 0, q: signed_byte(block[2 + i]) }
    }
}

/// Decodes `n` elements.
pub fn dequant(raw: &[u8], n: usize) -> (r: Result<Vec<Weight>, GgufError>)
    requires
        n <= usize::MAX / 4,
    ensures
        decoded::<Q8_0>(raw@, n as nat, r),
{
    decode::<Q8_0>(raw, n)
}

/// What is decoded gives the block back: an element is a byte behind the factor, as a signed
/// number.
pub proof fn law_q8_0_gives_block_back(block: Seq<u8>, i: int)
    requires
        block.len() == 34,
        0 <= i < 32,
    ensures
        ({
            let a = element::<Q8_0>(block, i);
            &&& -0x80 <= a.q < 0x80
            &&& block[2 + i] == a.q || block[2 + i] == a.q + 0x100
            &&& a == (Weight { q: a.q, ..plain(f16_widened(le16(block, 0))) })
        }),
{
    lemma_one_block::<Q8_0>(block, i);
}

} // verus!
