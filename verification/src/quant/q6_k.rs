//! Q6_K: blocks of 256 elements in 210 bytes.
//!
//! 128 bytes with the four low bits of each element, 64 bytes with its two high bits, 16
//! signed scales, then `d`. A scale serves 16 elements, which are numbers around 32.

use vstd::prelude::*;

use crate::gguf::error::GgufError;
use crate::halves::f16_widened;
use crate::gguf::reader::signed;
use crate::quant::crumb;
use crate::quant::element;
use crate::quant::lemma_one_block;
use crate::quant::le16;
use crate::quant::law_byte_parts;
use crate::quant::lemma_six_bits;
use crate::quant::decode;
use crate::quant::decoded;
use crate::quant::signed_byte;
use crate::quant::get_crumb;
use crate::quant::get_nibble;
use crate::quant::nibble;
use crate::quant::BlockFormat;
use crate::quant::Terms;
use crate::quant::Weight;

verus! {

/// The Q6_K block format.
#[allow(non_camel_case_types)]
pub struct Q6K {}

impl BlockFormat for Q6K {
    open spec fn spec_elems() -> nat {
        256
    }

    open spec fn spec_bytes() -> nat {
        210
    }

    open spec fn spec_d_at() -> nat {
        208
    }

    open spec fn spec_dmin_at() -> Option<nat> {
        None
    }

    open spec fn spec_shift() -> u8 {
        0
    }

    open spec fn spec_terms(block: Seq<u8>, i: int) -> Terms {
        let half = i / 128;
        let r = i % 128 / 32;
        let l = i % 32;
        Terms {
            scale: signed(block[192 + i / 16] as int, 0x80) as i16,
            min: 0,
            q: (nibble(block[half * 64 + r % 2 * 32 + l], r >= 2) + 16 * crumb(
                block[128 + half * 32 + l],
                r,
            ) - 32) as i16,
        }
    }

    proof fn lemma_layout() {
    }

    fn elems() -> (r: usize) {
        256
    }

    fn bytes() -> (r: usize) {
        210
    }

    fn d_at() -> (r: usize) {
        208
    }

    fn dmin_at() -> (r: Option<usize>) {
        None
    }

    fn shift() -> (r: u8) {
        0
    }

    fn terms(block: &[u8], i: usize) -> (r: Terms) {
        let half = i / 128;
        let r = i % 128 / 32;
        let l = i % 32;
        let low = get_nibble(block[half * 64 + r % 2 * 32 + l], r >= 2);
        let high = get_crumb(block[128 + half * 32 + l], r);
        Terms {
            scale: signed_byte(block[192 + i / 16]),
            min: 0,
            q: low as i16 + 16 * high as i16 - 32,
        }
    }
}

/// Decodes `n` elements.
pub fn dequant_q6k(raw: &[u8], n: usize) -> (r: Result<Vec<Weight>, GgufError>)
    requires
        n <= usize::MAX / 4,
    ensures
        decoded::<Q6K>(raw@, n as nat, r),
{
    decode::<Q6K>(raw, n)
}

/// Of each element plus 32, the four low bits give their bytes back, two elements that are 64
/// apart to a byte.
pub proof fn law_q6_k_low_bits(block: Seq<u8>, h: int, c: int, l: int)
    requires
        block.len() == 210,
        0 <= h < 2,
        0 <= c < 2,
        0 <= l < 32,
    ensures
        ({
            let q = |r: int| element::<Q6K>(block, 128 * h + 32 * r + l).q + 32;
            block[64 * h + 32 * c + l] == q(c) % 16 + 16 * (q(c + 2) % 16)
        }),
{
    lemma_bits(block, h, c, l);
    lemma_bits(block, h, c + 2, l);
    law_byte_parts(block[64 * h + 32 * c + l]);
}

/// Of each element plus 32, the two high bits give their bytes back, four elements that are 32
/// apart to a byte.
pub proof fn law_q6_k_high_bits(block: Seq<u8>, h: int, l: int)
    requires
        block.len() == 210,
        0 <= h < 2,
        0 <= l < 32,
    ensures
        ({
            let q = |r: int| element::<Q6K>(block, 128 * h + 32 * r + l).q + 32;
            block[128 + 32 * h + l] == q(0) / 16 + 4 * (q(1) / 16) + 16 * (q(2) / 16) + 64 * (q(3)
                / 16)
        }),
{
    lemma_bits(block, h, 0, l);
    lemma_bits(block, h, 1, l);
    lemma_bits(block, h, 2, l);
    lemma_bits(block, h, 3, l);
    law_byte_parts(block[128 + 32 * h + l]);
}

proof fn lemma_bits(block: Seq<u8>, h: int, r: int, l: int)
    requires
        block.len() == 210,
        0 <= h < 2,
        0 <= r < 4,
        0 <= l < 32,
    ensures
        (element::<Q6K>(block, 128 * h + 32 * r + l).q + 32) % 16 == nibble(
            block[64 * h + 32 * (r % 2) + l],
            r >= 2,
        ),
        (element::<Q6K>(block, 128 * h + 32 * r + l).q + 32) / 16 == crumb(
            block[128 + 32 * h + l],
            r,
        ),
{
    let j = 128 * h + 32 * r + l;
    lemma_one_block::<Q6K>(block, j);
    assert(element::<Q6K>(block, j).q == Q6K::spec_terms(block, j).q);
    lemma_bits_terms(block, h, r, l);
}

proof fn lemma_bits_terms(block: Seq<u8>, h: int, r: int, l: int)
    requires
        block.len() == 210,
        0 <= h < 2,
        0 <= r < 4,
        0 <= l < 32,
    ensures
        (Q6K::spec_terms(block, 128 * h + 32 * r + l).q + 32) % 16 == nibble(
            block[64 * h + 32 * (r % 2) + l],
            r >= 2,
        ),
        (Q6K::spec_terms(block, 128 * h + 32 * r + l).q + 32) / 16 == crumb(
            block[128 + 32 * h + l],
            r,
        ),
{
    let j = 128 * h + 32 * r + l;
    assert(j / 128 == h && j % 32 == l && j % 128 == 32 * r + l);
    assert((32 * r + l) / 32 == r);
    let low = nibble(block[64 * h + 32 * (r % 2) + l], r >= 2);
    let high = crumb(block[128 + 32 * h + l], r);
    assert(0 <= low < 16 && 0 <= high < 4);
    assert(Q6K::spec_terms(block, j).q == low + 16 * high - 32);
    lemma_six_bits(low, high);
}

/// Sixteen elements share a scale, which is a signed byte, all of them the factor at the end.
pub proof fn law_q6_k_shared(block: Seq<u8>, j: int)
    requires
        block.len() == 210,
        0 <= j < 256,
    ensures
        ({
            let a = element::<Q6K>(block, j);
            &&& 0 <= a.q + 32 < 64 && a.min == 0 && a.shift == 0
            &&& -0x80 <= a.scale < 0x80
            &&& block[192 + j / 16] == a.scale || block[192 + j / 16] == a.scale + 0x100
            &&& a.d == f16_widened(le16(block, 208)) && a.dmin == 0
        }),
{
    lemma_one_block::<Q6K>(block, j);
    let (h, r, l) = (j / 128, j % 128 / 32, j % 32);
    law_byte_parts(block[h * 64 + r % 2 * 32 + l]);
    law_byte_parts(block[128 + h * 32 + l]);
    assert(0 <= crumb(block[128 + h * 32 + l], r) < 4);
}

} // verus!
