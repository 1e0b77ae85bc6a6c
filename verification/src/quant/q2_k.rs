//! Q2_K: blocks of 256 elements in 84 bytes.
//!
//! 16 scales of 4 bits, 16 minima of 4 bits, 256 elements of 2 bits, then `d` and
//! `dmin`. A scale and a minimum serve 16 elements.

use vstd::prelude::*;

use crate::gguf::error::GgufError;
use crate::halves::f16_widened;
use crate::quant::crumb;
use crate::quant::element;
use crate::quant::lemma_one_block;
use crate::quant::le16;
use crate::quant::law_byte_parts;
use crate::quant::decode;
use crate::quant::decoded;
use crate::quant::get_crumb;
use crate::quant::get_nibble;
use crate::quant::nibble;
use crate::quant::BlockFormat;
use crate::quant::Terms;
use crate::quant::Weight;

verus! {

/// The Q2_K block format.
#[allow(non_camel_case_types)]
pub struct Q2K {}

impl BlockFormat for Q2K {
    open spec fn spec_elems() -> nat {
        256
    }

    open spec fn spec_bytes() -> nat {
        84
    }

    open spec fn spec_d_at() -> nat {
        80
    }

    open spec fn spec_dmin_at() -> Option<nat> {
        Some(82)
    }

    open spec fn spec_shift() -> u8 {
        0
    }

    open spec fn spec_terms(block: Seq<u8>, i: int) -> Terms {
        let sb = i / 16;
        Terms {
            scale: nibble(block[sb / 2], sb % 2 == 1) as i16,
            min: nibble(block[8 + sb / 2], sb % 2 == 1) as i16,
            q: crumb(block[16 + i / 4], i % 4) as i16,
        }
    }

    proof fn lemma_layout() {
    }

    fn elems() -> (r: usize) {
        256
    }

    fn bytes() -> (r: usize) {
        84
    }

    fn d_at() -> (r: usize) {
        80
    }

    fn dmin_at() -> (r: Option<usize>) {
        Some(82)
    }

    fn shift() -> (r: u8) {
        0
    }

    fn terms(block: &[u8], i: usize) -> (r: Terms) {
        let sb = i / 16;
        let scale = get_nibble(block[sb / 2], sb % 2 == 1);
        let min = get_nibble(block[8 + sb / 2], sb % 2 == 1);
        let q = get_crumb(block[16 + i / 4], i % 4);
        Terms { scale: scale as i16, min: min as i16, q: q as i16 }
    }
}

/// Decodes `n` elements.
pub fn dequant_q2k(raw: &[u8], n: usize) -> (r: Result<Vec<Weight>, GgufError>)
    requires
        n <= usize::MAX / 4,
    ensures
        decoded::<Q2K>(raw@, n as nat, r),
{
    decode::<Q2K>(raw, n)
}

/// The elements give their bytes back: four make one, the first its lowest bits.
pub proof fn law_q2_k_elements(block: Seq<u8>, i: int)
    requires
        block.len() == 84,
        0 <= i < 64,
    ensures
        block[16 + i] == element::<Q2K>(block, 4 * i).q + 4 * element::<Q2K>(block, 4 * i + 1).q + 16
            * element::<Q2K>(block, 4 * i + 2).q + 64 * element::<Q2K>(block, 4 * i + 3).q,
{
    lemma_one_block::<Q2K>(block, 4 * i);
    lemma_one_block::<Q2K>(block, 4 * i + 1);
    lemma_one_block::<Q2K>(block, 4 * i + 2);
    lemma_one_block::<Q2K>(block, 4 * i + 3);
    law_byte_parts(block[16 + i]);
}

/// The scales and minima give their bytes back: two of each make one, the first its low half.
pub proof fn law_q2_k_scales(block: Seq<u8>, k: int)
    requires
        block.len() == 84,
        0 <= k < 8,
    ensures
        block[k] == element::<Q2K>(block, 32 * k).scale + 16 * element::<Q2K>(
            block,
            32 * k + 16,
        ).scale,
        block[8 + k] == element::<Q2K>(block, 32 * k).min + 16 * element::<Q2K>(
            block,
            32 * k + 16,
        ).min,
{
    lemma_one_block::<Q2K>(block, 32 * k);
    lemma_one_block::<Q2K>(block, 32 * k + 16);
    assert((32 * k) / 16 == 2 * k && (32 * k + 16) / 16 == 2 * k + 1);
    law_byte_parts(block[k]);
    law_byte_parts(block[8 + k]);
}

/// Sixteen elements share a scale and a minimum, all of them the two factors at the end.
pub proof fn law_q2_k_shared(block: Seq<u8>, j: int)
    requires
        block.len() == 84,
        0 <= j < 256,
    ensures
        ({
            let a = element::<Q2K>(block, j);
            let first = element::<Q2K>(block, j - j % 16);
            &&& 0 <= a.q < 4 && 0 <= a.scale < 16 && 0 <= a.min < 16 && a.shift == 0
            &&& a.scale == first.scale && a.min == first.min
            &&& a.d == f16_widened(le16(block, 80)) && a.dmin == f16_widened(le16(block, 82))
        }),
{
    lemma_one_block::<Q2K>(block, j);
    lemma_one_block::<Q2K>(block, j - j % 16);
    assert((j - j % 16) / 16 == j / 16);
    law_byte_parts(block[j / 16 / 2]);
    law_byte_parts(block[8 + j / 16 / 2]);
    law_byte_parts(block[16 + j / 4]);
}

} // verus!
