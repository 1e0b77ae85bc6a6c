//! Q5_K: blocks of 256 elements in 176 bytes.
//!
//! `d`, `dmin`, 12 bytes with 8 scales and 8 minima of 6 bits, 32 bytes with the fifth
//! bit of each element, then 128 bytes with its four low bits. A scale and a minimum
//! serve 32 elements; the two halves of such a run share 16 bytes.

use vstd::prelude::*;

use crate::gguf::error::GgufError;
use crate::halves::f16_widened;
use crate::quant::bit;
use crate::quant::element;
use crate::quant::lemma_one_block;
use crate::quant::le16;
use crate::quant::law_byte_parts;
use crate::quant::one_if;
use crate::quant::lemma_six_bits;
use crate::quant::decode;
use crate::quant::decoded;
use crate::quant::get_bit;
use crate::quant::get_nibble;
use crate::quant::nibble;
use crate::quant::BlockFormat;
use crate::quant::Terms;
use crate::quant::Weight;

verus! {

/// The Q5_K block format.
#[allow(non_camel_case_types)]
pub struct Q5K {}

impl BlockFormat for Q5K {
    open spec fn spec_elems() -> nat {
        256
    }

    open spec fn spec_bytes() -> nat {
        176
    }

    open spec fn spec_d_at() -> nat {
        0
    }

    open spec fn spec_dmin_at() -> Option<nat> {
        Some(2)
    }

    open spec fn spec_shift() -> u8 {
        0
    }

    open spec fn spec_terms(block: Seq<u8>, i: int) -> Terms {
        let sb = i / 32;
        Terms {
            scale: (block[4 + sb / 2 + sb % 2 * 4] as int % 64) as i16,
            min: (block[4 + sb / 2 + sb % 2 * 4] as int / 64 + 4 * nibble(
                block[12 + sb / 2],
                sb % 2 == 1,
            )) as i16,
            q: (nibble(block[48 + sb * 16 + i % 16], i % 32 >= 16) + if bit(
                block[16 + i / 8],
                i % 8,
            ) {
                16int
            } else {
                0
            }) as i16,
        }
    }

    proof fn lemma_layout() {
    }

    fn elems() -> (r: usize) {
        256
    }

    fn bytes() -> (r: usize) {
        176
    }

    fn d_at() -> (r: usize) {
        0
    }

    fn dmin_at() -> (r: Option<usize>) {
        Some(2)
    }

    fn shift() -> (r: u8) {
        0
    }

    fn terms(block: &[u8], i: usize) -> (r: Terms) {
        let sb = i / 32;
        let s = block[4 + sb / 2 + sb % 2 * 4];
        let hi = get_nibble(block[12 + sb / 2], sb % 2 == 1);
        let low = get_nibble(block[48 + sb * 16 + i % 16], i % 32 >= 16);
        let q: i16 = if get_bit(block[16 + i / 8], i % 8) {
            low as i16 + 16
        } else {
            low as i16
        };
        Terms { scale: (s % 64) as i16, min: (s / 64) as i16 + 4 * hi as i16, q }
    }
}

/// Decodes `n` elements.
pub fn dequant_q5k(raw: &[u8], n: usize) -> (r: Result<Vec<Weight>, GgufError>)
    requires
        n <= usize::MAX / 4,
    ensures
        decoded::<Q5K>(raw@, n as nat, r),
{
    decode::<Q5K>(raw, n)
}

/// The four low bits of the elements give their bytes back: two that are 16 apart make one, the
/// first its low half.
pub proof fn law_q5_k_low_bits(block: Seq<u8>, r: int, l: int)
    requires
        block.len() == 176,
        0 <= r < 8,
        0 <= l < 32,
    ensures
        element::<Q5K>(block, 32 * r + l).q as int % 16 == if l < 16 {
            block[48 + 16 * r + l] as int % 16
        } else {
            block[48 + 16 * r + (l - 16)] as int / 16
        },
{
    let q = element::<Q5K>(block, 32 * r + l).q as int;
    assert(q == Q5K::spec_terms(block, 32 * r + l).q) by {
        lemma_one_block::<Q5K>(block, 32 * r + l);
    }
    lemma_low_terms(block, r, l);
    lemma_half(block, 48 + 16 * r, l, q);
}

proof fn lemma_half(b: Seq<u8>, at: int, l: int, q: int)
    requires
        0 <= l < 32,
        q % 16 == nibble(b[at + l % 16], l >= 16),
    ensures
        q % 16 == if l < 16 {
            b[at + l] as int % 16
        } else {
            b[at + (l - 16)] as int / 16
        },
{
}

proof fn lemma_low_terms(block: Seq<u8>, r: int, l: int)
    requires
        block.len() == 176,
        0 <= r < 8,
        0 <= l < 32,
    ensures
        Q5K::spec_terms(block, 32 * r + l).q as int % 16 == nibble(
            block[48 + 16 * r + l % 16],
            l >= 16,
        ),
{
    let j = 32 * r + l;
    let low = nibble(block[48 + 16 * r + l % 16], l >= 16);
    let high = one_if(bit(block[16 + j / 8], j % 8));
    assert(j / 32 == r && j % 32 == l && j % 16 == l % 16);
    assert(0 <= low < 16);
    assert(Q5K::spec_terms(block, j).q == low + 16 * high);
    lemma_six_bits(low, high);
}

/// The fifth bits of the elements give their bytes back: eight in a row make one.
pub proof fn law_q5_k_high_bits(block: Seq<u8>, k: int)
    requires
        block.len() == 176,
        0 <= k < 32,
    ensures
        ({
            let q = |j: int| element::<Q5K>(block, 8 * k + j).q as int / 16;
            block[16 + k] == q(0) + 2 * q(1) + 4 * q(2) + 8 * q(3) + 16 * q(4) + 32 * q(5) + 64 * q(
                6,
            ) + 128 * q(7)
        }),
{
    lemma_fifth(block, k, 0);
    lemma_fifth(block, k, 1);
    lemma_fifth(block, k, 2);
    lemma_fifth(block, k, 3);
    lemma_fifth(block, k, 4);
    lemma_fifth(block, k, 5);
    lemma_fifth(block, k, 6);
    lemma_fifth(block, k, 7);
    law_byte_parts(block[16 + k]);
}

proof fn lemma_fifth(block: Seq<u8>, k: int, j: int)
    requires
        block.len() == 176,
        0 <= k < 32,
        0 <= j < 8,
    ensures
        element::<Q5K>(block, 8 * k + j).q as int / 16 == one_if(bit(block[16 + k], j)),
{
    let i = 8 * k + j;
    lemma_one_block::<Q5K>(block, i);
    assert(i / 8 == k && i % 8 == j);
    law_byte_parts(block[48 + i / 32 * 16 + i % 16]);
}

/// The scales and minima of the runs of 32 give their bytes back: a scale shares its byte with
/// the two low bits of its minimum, and the high bits of two minima make one.
pub proof fn law_q5_k_scales(block: Seq<u8>, t: int, u: int)
    requires
        block.len() == 176,
        0 <= t < 4,
        0 <= u < 2,
    ensures
        ({
            let w = |r: int| element::<Q5K>(block, 32 * r);
            let r = 2 * t + u;
            &&& block[4 + t + 4 * u] == w(r).scale + 64 * (w(r).min as int % 4)
            &&& block[12 + t] == w(2 * t).min as int / 4 + 16 * (w(2 * t + 1).min as int / 4)
        }),
{
    lemma_run(block, t, 0);
    lemma_run(block, t, 1);
}

proof fn lemma_run(block: Seq<u8>, t: int, u: int)
    requires
        block.len() == 176,
        0 <= t < 4,
        0 <= u < 2,
    ensures
        ({
            let a = element::<Q5K>(block, 32 * (2 * t + u));
            let b = block[4 + t + 4 * u];
            &&& a.scale == b as int % 64
            &&& a.min as int % 4 == b as int / 64
            &&& a.min as int / 4 == nibble(block[12 + t], u == 1)
        }),
{
    let r = 2 * t + u;
    let j = 32 * r;
    lemma_one_block::<Q5K>(block, j);
    assert(element::<Q5K>(block, j).scale == Q5K::spec_terms(block, j).scale);
    assert(element::<Q5K>(block, j).min == Q5K::spec_terms(block, j).min);
    assert(j / 32 == r && r / 2 == t && r % 2 == u);
    let high = nibble(block[12 + t], u == 1);
    let low = block[4 + t + 4 * u] as int / 64;
    assert(0 <= high < 16 && 0 <= low < 4);
    assert(Q5K::spec_terms(block, j).min == low + 4 * high);
    assert((low + 4 * high) % 4 == low && (low + 4 * high) / 4 == high);
}

/// A run of 32 elements shares a scale and a minimum, all of them the two factors in front.
pub proof fn law_q5_k_shared(block: Seq<u8>, j: int)
    requires
        block.len() == 176,
        0 <= j < 256,
    ensures
        ({
            let a = element::<Q5K>(block, j);
            let first = element::<Q5K>(block, j - j % 32);
            &&& 0 <= a.q < 32 && 0 <= a.scale < 64 && 0 <= a.min < 64 && a.shift == 0
            &&& a.scale == first.scale && a.min == first.min
            &&& a.d == f16_widened(le16(block, 0)) && a.dmin == f16_widened(le16(block, 2))
        }),
{
    lemma_one_block::<Q5K>(block, j);
    lemma_one_block::<Q5K>(block, j - j % 32);
    assert((j - j % 32) / 32 == j / 32);
    law_byte_parts(block[12 + j / 32 / 2]);
    law_byte_parts(block[48 + j / 32 * 16 + j % 16]);
}

} // verus!
