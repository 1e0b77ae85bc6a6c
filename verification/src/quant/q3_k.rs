//! Q3_K: blocks of 256 elements in 110 bytes.
//!
//! 32 bytes with the third bit of each element, 64 bytes with its two low bits, 12
//! bytes with 16 scales of 6 bits, then `d`. A scale serves 16 elements. An element
//! whose third bit is clear is four less.

use vstd::prelude::*;

use crate::gguf::error::GgufError;
use crate::halves::f16_widened;
use crate::quant::bit;
use crate::quant::crumb;
use crate::quant::element;
use crate::quant::lemma_one_block;
use crate::quant::le16;
use crate::quant::law_byte_parts;
use crate::quant::one_if;
use crate::quant::lemma_six_bits;
use crate::quant::decode;
use crate::quant::decoded;
use crate::quant::get_bit;
use crate::quant::get_crumb;
use crate::quant::get_nibble;
use crate::quant::nibble;
use crate::quant::BlockFormat;
use crate::quant::Terms;
use crate::quant::Weight;

verus! {

/// Scale `s` of a block: four bits from one of the first eight scale bytes, two from one
/// of the last four.
pub open spec fn scale_of(block: Seq<u8>, s: int) -> int {
    nibble(block[96 + s % 8], s >= 8) + 16 * crumb(block[104 + s % 4], s / 4)
}

fn get_scale(block: &[u8], s: usize) -> (r: u8)
    requires
        block@.len() == 110,
        s < 16,
    ensures
        r == scale_of(block@, s as int),
        r < 64,
{
    get_nibble(block[96 + s % 8], s >= 8) + 16 * get_crumb(block[104 + s % 4], s / 4)
}

/// The Q3_K block format.
#[allow(non_camel_case_types)]
pub struct Q3K {}

impl BlockFormat for Q3K {
    open spec fn spec_elems() -> nat {
        256
    }

    open spec fn spec_bytes() -> nat {
        110
    }

    open spec fn spec_d_at() -> nat {
        108
    }

    open spec fn spec_dmin_at() -> Option<nat> {
        None
    }

    open spec fn spec_shift() -> u8 {
        0
    }

    open spec fn spec_terms(block: Seq<u8>, i: int) -> Terms {
        Terms {
            scale: (scale_of(block, i / 16) - 32) as i16,
            min: 0,
            q: (crumb(block[32 + i / 128 * 32 + i % 32], i % 128 / 32) - if bit(
                block[i % 32],
                i / 32,
            ) {
                0int
            } else {
                4
            }) as i16,
        }
    }

    proof fn lemma_layout() {
    }

    fn elems() -> (r: usize) {
        256
    }

    fn bytes() -> (r: usize) {
        110
    }

    fn d_at() -> (r: usize) {
        108
    }

    fn dmin_at() -> (r: Option<usize>) {
        None
    }

    fn shift() -> (r: u8) {
        0
    }

    fn terms(block: &[u8], i: usize) -> (r: Terms) {
        let scale = get_scale(block, i / 16);
        let low = get_crumb(block[32 + i / 128 * 32 + i % 32], i % 128 / 32);
        let q: i16 = if get_bit(block[i % 32], i / 32) {
            low as i16
        } else {
            low as i16 - 4
        };
        Terms { scale: scale as i16 - 32, min: 0, q }
    }
}

/// Decodes `n` elements.
pub fn dequant_q3k(raw: &[u8], n: usize) -> (r: Result<Vec<Weight>, GgufError>)
    requires
        n <= usize::MAX / 4,
    ensures
        decoded::<Q3K>(raw@, n as nat, r),
{
    decode::<Q3K>(raw, n)
}

/// Of each element plus four, the two low bits give their bytes back, four elements that are 32
/// apart to a byte.
pub proof fn law_q3_k_low_bits(block: Seq<u8>, h: int, l: int)
    requires
        block.len() == 110,
        0 <= h < 2,
        0 <= l < 32,
    ensures
        ({
            let q = |r: int| element::<Q3K>(block, 128 * h + 32 * r + l).q + 4;
            block[32 + 32 * h + l] == q(0) % 4 + 4 * (q(1) % 4) + 16 * (q(2) % 4) + 64 * (q(3) % 4)
        }),
{
    lemma_low(block, h, 0, l);
    lemma_low(block, h, 1, l);
    lemma_low(block, h, 2, l);
    lemma_low(block, h, 3, l);
    law_byte_parts(block[32 + 32 * h + l]);
}

proof fn lemma_low(block: Seq<u8>, h: int, r: int, l: int)
    requires
        block.len() == 110,
        0 <= h < 2,
        0 <= r < 4,
        0 <= l < 32,
    ensures
        (element::<Q3K>(block, 128 * h + 32 * r + l).q + 4) % 4 == crumb(
            block[32 + 32 * h + l],
            r,
        ),
        (element::<Q3K>(block, 128 * h + 32 * r + l).q + 4) / 4 == one_if(bit(block[l], 4 * h + r)),
{
    let j = 128 * h + 32 * r + l;
    lemma_one_block::<Q3K>(block, j);
    assert(j / 128 == h && j % 32 == l && j % 128 == 32 * r + l && j / 32 == 4 * h + r);
    assert((32 * r + l) / 32 == r);
    law_byte_parts(block[32 + 32 * h + l]);
    assert(0 <= crumb(block[32 + 32 * h + l], r) < 4);
}

/// Of each element plus four, the third bit gives its byte back, eight elements that are 32
/// apart to a byte.
pub proof fn law_q3_k_high_bits(block: Seq<u8>, l: int)
    requires
        block.len() == 110,
        0 <= l < 32,
    ensures
        ({
            let q = |r: int| element::<Q3K>(block, 32 * r + l).q + 4;
            block[l] == q(0) / 4 + 2 * (q(1) / 4) + 4 * (q(2) / 4) + 8 * (q(3) / 4) + 16 * (q(4) / 4)
                + 32 * (q(5) / 4) + 64 * (q(6) / 4) + 128 * (q(7) / 4)
        }),
{
    lemma_low(block, 0, 0, l);
    lemma_low(block, 0, 1, l);
    lemma_low(block, 0, 2, l);
    lemma_low(block, 0, 3, l);
    lemma_low(block, 1, 0, l);
    lemma_low(block, 1, 1, l);
    lemma_low(block, 1, 2, l);
    lemma_low(block, 1, 3, l);
    law_byte_parts(block[l]);
}

/// The scales plus 32 give their bytes back: the four low bits of two that are eight apart.
pub proof fn law_q3_k_scales_low(block: Seq<u8>, k: int)
    requires
        block.len() == 110,
        0 <= k < 8,
    ensures
        block[96 + k] == (element::<Q3K>(block, 16 * k).scale + 32) % 16 + 16 * ((element::<Q3K>(
            block,
            16 * (k + 8),
        ).scale + 32) % 16),
{
    lemma_scale(block, k);
    lemma_scale(block, k + 8);
}

/// The scales plus 32 give their bytes back: the two high bits of four that are four apart.
pub proof fn law_q3_k_scales_high(block: Seq<u8>, m: int)
    requires
        block.len() == 110,
        0 <= m < 4,
    ensures
        ({
            let s = |j: int| (element::<Q3K>(block, 16 * (m + 4 * j)).scale + 32) / 16;
            block[104 + m] == s(0) + 4 * s(1) + 16 * s(2) + 64 * s(3)
        }),
{
    let s = |j: int| (element::<Q3K>(block, 16 * (m + 4 * j)).scale + 32) / 16;
    lemma_scale_high(block, m, 0);
    lemma_scale_high(block, m, 1);
    lemma_scale_high(block, m, 2);
    lemma_scale_high(block, m, 3);
    let b = block[104 + m];
    assert(s(0) == crumb(b, 0) && s(1) == crumb(b, 1) && s(2) == crumb(b, 2) && s(3) == crumb(b, 3));
    lemma_crumbs(b);
}

proof fn lemma_crumbs(b: u8)
    ensures
        b == crumb(b, 0) + 4 * crumb(b, 1) + 16 * crumb(b, 2) + 64 * crumb(b, 3),
{
}

proof fn lemma_scale_high(block: Seq<u8>, m: int, j: int)
    requires
        block.len() == 110,
        0 <= m < 4,
        0 <= j < 4,
    ensures
        (element::<Q3K>(block, 16 * (m + 4 * j)).scale + 32) / 16 == crumb(block[104 + m], j),
{
    lemma_scale(block, m + 4 * j);
    assert((m + 4 * j) % 4 == m && (m + 4 * j) / 4 == j);
}

proof fn lemma_scale_terms(block: Seq<u8>, s: int)
    requires
        block.len() == 110,
        0 <= s < 16,
    ensures
        (Q3K::spec_terms(block, 16 * s).scale + 32) % 16 == nibble(block[96 + s % 8], s >= 8),
        (Q3K::spec_terms(block, 16 * s).scale + 32) / 16 == crumb(block[104 + s % 4], s / 4),
{
    assert((16 * s) / 16 == s);
    let low = nibble(block[96 + s % 8], s >= 8);
    let high = crumb(block[104 + s % 4], s / 4);
    assert(0 <= low < 16);
    assert(0 <= high < 4);
    assert(Q3K::spec_terms(block, 16 * s).scale == low + 16 * high - 32);
    lemma_six_bits(low, high);
}

proof fn lemma_scale(block: Seq<u8>, s: int)
    requires
        block.len() == 110,
        0 <= s < 16,
    ensures
        (element::<Q3K>(block, 16 * s).scale + 32) % 16 == nibble(block[96 + s % 8], s >= 8),
        (element::<Q3K>(block, 16 * s).scale + 32) / 16 == crumb(block[104 + s % 4], s / 4),
{
    lemma_scale_terms(block, s);
    lemma_one_block::<Q3K>(block, 16 * s);
    assert(element::<Q3K>(block, 16 * s).scale == Q3K::spec_terms(block, 16 * s).scale);
}

/// Sixteen elements share a scale, all of them the factor at the end.
pub proof fn law_q3_k_shared(block: Seq<u8>, j: int)
    requires
        block.len() == 110,
        0 <= j < 256,
    ensures
        ({
            let a = element::<Q3K>(block, j);
            &&& 0 <= a.q + 4 < 8 && 0 <= a.scale + 32 < 64 && a.min == 0 && a.shift == 0
            &&& a.scale == element::<Q3K>(block, j - j % 16).scale
            &&& a.d == f16_widened(le16(block, 108)) && a.dmin == 0
        }),
{
    lemma_one_block::<Q3K>(block, j);
    lemma_one_block::<Q3K>(block, j - j % 16);
    let s = j / 16;
    assert((j - j % 16) / 16 == s);
    law_byte_parts(block[96 + s % 8]);
    law_byte_parts(block[104 + s % 4]);
    assert(0 <= crumb(block[104 + s % 4], s / 4) < 4);
    let b = block[32 + j / 128 * 32 + j % 32];
    law_byte_parts(b);
    assert(0 <= crumb(b, j % 128 / 32) < 4);
}

} // verus!
